use vstd::prelude::*;

use crate::text::{
    chars_of, copy_range, decimal_value, digits_value, is_digit, is_text, parse_decimal,
    split_tokens, string_of, tokens_of, usize_value,
};

verus! {

/// One animation of an object kind: its sprite sheet, how long each frame
/// shows, and how many frames it has.
pub struct AnimationSpec {
    pub image: String,
    pub delay_ms: u64,
    pub frames: usize,
}

/// An object kind and its animations.
pub struct ObjectData {
    pub kind: String,
    pub animations: Vec<AnimationSpec>,
}

/// Why a line of object data was rejected.
#[derive(Clone, Copy, Debug, PartialEq, Eq, Structural)]
pub enum ObjectError {
    /// The line does not start with the word `OBJ`.
    NotAnObject,
    /// A word the line needs is not there.
    MissingField,
    /// A number that is not decimal or does not fit its type.
    BadNumber,
    /// An image name shorter than its four-character extension.
    ShortImageName,
}

/// `t` read as an `i32`: decimal after an optional sign, and in range.
pub open spec fn i32_value(t: Seq<char>) -> Option<i32> {
    if t.len() > 0 && t[0] == '-' {
        let d = t.drop_first();
        if d.len() > 0 && (forall|i: int| 0 <= i < d.len() ==> is_digit(#[trigger] d[i]))
            && digits_value(d) <= 0x8000_0000 {
            Some((-digits_value(d)) as i32)
        } else {
            None
        }
    } else {
        match decimal_value(t) {
            Some(v) => if v <= i32::MAX {
                Some(v as i32)
            } else {
                None
            },
            None => None,
        }
    }
}

/// The delay of a frame time as written: -1 shows frames without delay;
/// another negative time wraps round as a `u64`.
pub open spec fn delay_of(d: i32) -> u64 {
    if d == -1 {
        0
    } else if d >= 0 {
        d as u64
    } else {
        (d + 0x1_0000_0000_0000_0000) as u64
    }
}

pub struct AnimationView {
    pub image: Seq<char>,
    pub delay_ms: u64,
    pub frames: usize,
}

/// The animations written from word `i` of `t` on, each as an image name
/// with its extension, a frame time and a frame count, up to the word `EA`.
pub open spec fn read_animations(t: Seq<Seq<char>>, i: int) -> Result<Seq<AnimationView>, ObjectError>
    decreases t.len() - i,
{
    if i < 0 || i >= t.len() {
        Err(ObjectError::MissingField)
    } else if t[i] == "EA"@ {
        Ok(seq![])
    } else if t[i].len() < 4 {
        Err(ObjectError::ShortImageName)
    } else if i + 1 >= t.len() {
        Err(ObjectError::MissingField)
    } else {
        match i32_value(t[i + 1]) {
            None => Err(ObjectError::BadNumber),
            Some(d) => if i + 2 >= t.len() {
                Err(ObjectError::MissingField)
            } else {
                match usize_value(t[i + 2]) {
                    None => Err(ObjectError::BadNumber),
                    Some(f) => match read_animations(t, i + 3) {
                        Err(e) => Err(e),
                        Ok(rest) => Ok(
                            seq![
                                AnimationView {
                                    image: t[i].subrange(0, t[i].len() - 4),
                                    delay_ms: delay_of(d),
                                    frames: f,
                                },
                            ] + rest,
                        ),
                    },
                }
            },
        }
    }
}

/// A line of object data: `OBJ`, the kind, seven words that are skipped,
/// then the animations up to `EA`.
pub open spec fn object_spec(line: Seq<char>) -> Result<(Seq<char>, Seq<AnimationView>), ObjectError> {
    let t = split_tokens(line);
    if t.len() < 1 || t[0] != "OBJ"@ {
        Err(ObjectError::NotAnObject)
    } else if t.len() < 2 {
        Err(ObjectError::MissingField)
    } else {
        match read_animations(t, 9) {
            Err(e) => Err(e),
            Ok(a) => Ok((t[1], a)),
        }
    }
}

pub open spec fn animations_view(v: Seq<AnimationSpec>) -> Seq<AnimationView> {
    v.map_values(
        |a: AnimationSpec| AnimationView { image: a.image@, delay_ms: a.delay_ms, frames: a.frames },
    )
}

/// `t` read as an `i32`, as `i32_value` says.
fn i32_of(t: &Vec<char>) -> (r: Option<i32>)
    ensures
        r == i32_value(t@),
{
    if t.len() > 0 && t[0] == '-' {
        let d = copy_range(t, 1, t.len());
        assert(d@ =~= t@.drop_first());
        if d.len() == 0 {
            return None;
        }
        if d[0] == '+' {
            assert(!is_digit(d@[0]));
            return None;
        }
        match parse_decimal(&d, 0x8000_0000) {
            Some(v) => {
                let r = (0 - (v as i64)) as i32;
                Some(r)
            },
            None => None,
        }
    } else {
        match parse_decimal(t, i32::MAX as u64) {
            Some(v) => Some(v as i32),
            None => None,
        }
    }
}

/// Reads a line of object data, as `object_spec` says.
pub fn parse_object_line(line: &str) -> (r: Result<ObjectData, ObjectError>)
    ensures
        match r {
            Ok(o) => object_spec(line@) == Ok::<(Seq<char>, Seq<AnimationView>), ObjectError>(
                (o.kind@, animations_view(o.animations@)),
            ),
            Err(e) => object_spec(line@) == Err::<(Seq<char>, Seq<AnimationView>), ObjectError>(e),
        },
{
    let chars = chars_of(line);
    let t = tokens_of(&chars);
    let ghost ts = split_tokens(line@);
    if t.len() < 1 || !is_text(&t[0], "OBJ") {
        return Err(ObjectError::NotAnObject);
    }
    if t.len() < 2 {
        return Err(ObjectError::MissingField);
    }
    let kind = string_of(&t[1]);
    assert(object_spec(line@) == match read_animations(ts, 9) {
        Err(e) => Err(e),
        Ok(a) => Ok::<(Seq<char>, Seq<AnimationView>), ObjectError>((ts[1], a)),
    });
    let mut animations: Vec<AnimationSpec> = Vec::new();
    let mut i: usize = 9;
    while i < t.len() && !is_text(&t[i], "EA")
        invariant
            ts == split_tokens(line@),
            ts.len() >= 2,
            object_spec(line@) == match read_animations(ts, 9) {
                Err(e) => Err(e),
                Ok(a) => Ok::<(Seq<char>, Seq<AnimationView>), ObjectError>((ts[1], a)),
            },
            kind@ == ts[1],
            t@.len() == ts.len(),
            forall|k: int| 0 <= k < t@.len() ==> (#[trigger] t@[k])@ == ts[k],
            i >= 9,
            read_animations(ts, 9) == match read_animations(ts, i as int) {
                Ok(rest) => Ok(animations_view(animations@) + rest),
                Err(e) => Err::<Seq<AnimationView>, ObjectError>(e),
            },
        decreases t@.len() - i,
    {
        let w = &t[i];
        assert(w@ == ts[i as int]);
        if w.len() < 4 {
            return Err(ObjectError::ShortImageName);
        }
        if i + 1 >= t.len() {
            return Err(ObjectError::MissingField);
        }
        let d = match i32_of(&t[i + 1]) {
            Some(d) => d,
            None => {
                return Err(ObjectError::BadNumber);
            },
        };
        if i + 2 >= t.len() {
            return Err(ObjectError::MissingField);
        }
        let frames = match parse_decimal(&t[i + 2], usize::MAX as u64) {
            Some(f) => f as usize,
            None => {
                return Err(ObjectError::BadNumber);
            },
        };
        let image = string_of(&copy_range(w, 0, w.len() - 4));
        let delay_ms: u64 = if d == -1 {
            0
        } else if d >= 0 {
            d as u64
        } else {
            (d as i128 + 0x1_0000_0000_0000_0000) as u64
        };
        let spec = AnimationSpec { image, delay_ms, frames };
        proof {
            let a = AnimationView { image: spec.image@, delay_ms, frames };
            assert(animations_view(animations@.push(spec)) =~= animations_view(animations@).push(a));
            match read_animations(ts, i + 3) {
                Ok(rest) => {
                    assert(animations_view(animations@).push(a) + rest =~= animations_view(
                        animations@,
                    ) + (seq![a] + rest));
                },
                Err(_) => {},
            }
        }
        animations.push(spec);
        i += 3;
    }
    if i >= t.len() {
        return Err(ObjectError::MissingField);
    }
    proof {
        assert(animations_view(animations@) + seq![] =~= animations_view(animations@));
    }
    Ok(ObjectData { kind, animations })
}

} // verus!
