use vstd::prelude::*;

use vstd::string::StringExecFns;

use crate::text::{
    chars_of, decimal, find_first, is_text, lemma_find_first_at, lemma_find_first_bounds,
    lines_of, parse_decimal, push_char, push_decimal, split_lines, split_tokens, string_of,
    tokens_of, u32_value, usize_value,
};

verus! {

/// Why a level file was rejected.
#[derive(Clone, Copy, Debug, PartialEq, Eq, Structural)]
pub enum ActError {
    MissingVersion,
    MissingName,
    /// An entity line without its x, y or kind word.
    MissingEntityX,
    MissingEntityY,
    MissingEntityKind,
    /// The four fixed lines after the entity list are not there.
    UnexpectedMetadata,
    MissingTileCount,
    MissingSize,
    MissingWidth,
    MissingHeight,
    TrailingSizeData,
    /// Width times height does not fit in a `usize`.
    GridTooLarge,
    /// A number that is not decimal or does not fit its type.
    BadNumber,
    MissingX,
    MissingY,
    MissingIndex,
    /// A tile record at pixels `(x, y)` off the block grid.
    InvalidTilePosition(usize, usize),
    /// A tile record at block `(x, y)` outside the grid.
    OutOfRangeTilePosition(usize, usize),
    TrailingTileData,
    TrailingLines,
}

/// One entity line: its position words, its kind and its flags, as written.
/// The position words are kept as text; reading them as numbers is left to
/// the caller.
pub struct EntityRecord {
    pub x: String,
    pub y: String,
    pub kind: String,
    pub flags: Vec<String>,
}

/// A level: header lines, entities, and a grid `width` blocks wide, row by
/// row, of optional (block index, placement flags) cells.
pub struct ActFile {
    pub version: String,
    pub name: String,
    pub entities: Vec<EntityRecord>,
    pub width: usize,
    pub tiles: Vec<Option<(usize, u32)>>,
}

pub struct EntityView {
    pub x: Seq<char>,
    pub y: Seq<char>,
    pub kind: Seq<char>,
    pub flags: Seq<Seq<char>>,
}

pub struct ActView {
    pub version: Seq<char>,
    pub name: Seq<char>,
    pub entities: Seq<EntityView>,
    pub width: nat,
    pub tiles: Seq<Option<(usize, u32)>>,
}

pub open spec fn strings_view(v: Seq<String>) -> Seq<Seq<char>> {
    v.map_values(|s: String| s@)
}

pub open spec fn entities_view(v: Seq<EntityRecord>) -> Seq<EntityView> {
    v.map_values(|e: EntityRecord| e@)
}

pub open spec fn lines_view(v: Seq<Vec<char>>) -> Seq<Seq<char>> {
    v.map_values(|l: Vec<char>| l@)
}

impl View for EntityRecord {
    type V = EntityView;

    open spec fn view(&self) -> EntityView {
        EntityView { x: self.x@, y: self.y@, kind: self.kind@, flags: strings_view(self.flags@) }
    }
}

impl View for ActFile {
    type V = ActView;

    open spec fn view(&self) -> ActView {
        ActView {
            version: self.version@,
            name: self.name@,
            entities: entities_view(self.entities@),
            width: self.width as nat,
            tiles: self.tiles@,
        }
    }
}

/// The line that ends the entity list.
pub open spec fn marker_line() -> Seq<char> {
    "E"@
}

/// The four fixed lines after the entity list.
pub open spec fn metadata_lines() -> Seq<Seq<char>> {
    seq!["NORMAL"@, "EmeraldHillZone.png"@, "EmeraldHillZone/Block"@, "EmeraldHillZone/Background/"@]
}

/// The header lines, entities and grid size of a level file, and where its
/// tile records start.
pub struct ActHeader {
    pub version: Seq<char>,
    pub name: Seq<char>,
    pub entities: Seq<EntityView>,
    pub count: nat,
    pub width: nat,
    pub height: nat,
    pub records_start: int,
}

/// An entity line: x, y and kind words, then any number of flag words.
pub open spec fn parse_entity(line: Seq<char>) -> Result<EntityView, ActError> {
    let t = split_tokens(line);
    if t.len() < 1 {
        Err(ActError::MissingEntityX)
    } else if t.len() < 2 {
        Err(ActError::MissingEntityY)
    } else if t.len() < 3 {
        Err(ActError::MissingEntityKind)
    } else {
        Ok(EntityView { x: t[0], y: t[1], kind: t[2], flags: t.subrange(3, t.len() as int) })
    }
}

/// The entities of `lines`, after those in `acc`; the first bad line decides
/// the error.
pub open spec fn read_entities(lines: Seq<Seq<char>>, acc: Seq<EntityView>) -> Result<
    Seq<EntityView>,
    ActError,
>
    decreases lines.len(),
{
    if lines.len() == 0 {
        Ok(acc)
    } else {
        match parse_entity(lines[0]) {
            Err(e) => Err(e),
            Ok(v) => read_entities(lines.drop_first(), acc.push(v)),
        }
    }
}

/// The grid size line: a width and a height word, nothing more.
pub open spec fn parse_size(line: Seq<char>) -> Result<(usize, usize), ActError> {
    let t = split_tokens(line);
    if t.len() < 1 {
        Err(ActError::MissingWidth)
    } else {
        match usize_value(t[0]) {
            None => Err(ActError::BadNumber),
            Some(w) => if t.len() < 2 {
                Err(ActError::MissingHeight)
            } else {
                match usize_value(t[1]) {
                    None => Err(ActError::BadNumber),
                    Some(h) => if t.len() > 2 {
                        Err(ActError::TrailingSizeData)
                    } else {
                        Ok((w, h))
                    },
                }
            },
        }
    }
}

/// Version and name lines, entity lines up to the marker line, the four
/// fixed lines, the tile record count and the grid size.
pub open spec fn parse_header(lines: Seq<Seq<char>>) -> Result<ActHeader, ActError> {
    if lines.len() < 1 {
        Err(ActError::MissingVersion)
    } else if lines.len() < 2 {
        Err(ActError::MissingName)
    } else {
        let e = 2 + find_first(lines.subrange(2, lines.len() as int), marker_line());
        match read_entities(lines.subrange(2, e), seq![]) {
            Err(err) => Err(err),
            Ok(ents) => if !(e + 5 <= lines.len() && lines.subrange(e + 1, e + 5)
                == metadata_lines()) {
                Err(ActError::UnexpectedMetadata)
            } else if lines.len() <= e + 5 {
                Err(ActError::MissingTileCount)
            } else {
                match usize_value(lines[e + 5]) {
                    None => Err(ActError::BadNumber),
                    Some(count) => if lines.len() <= e + 6 {
                        Err(ActError::MissingSize)
                    } else {
                        match parse_size(lines[e + 6]) {
                            Err(err) => Err(err),
                            Ok(wh) => if wh.0 * wh.1 > usize::MAX {
                                Err(ActError::GridTooLarge)
                            } else {
                                Ok(
                                    ActHeader {
                                        version: lines[0],
                                        name: lines[1],
                                        entities: ents,
                                        count: count as nat,
                                        width: wh.0 as nat,
                                        height: wh.1 as nat,
                                        records_start: e + 7,
                                    },
                                )
                            },
                        }
                    },
                }
            },
        }
    }
}

/// The tile record at `line` in a grid of `width` by `height` blocks: the
/// grid position it fills and the cell it puts there.
pub open spec fn parse_record(line: Seq<char>, width: nat, height: nat) -> Result<
    (int, (usize, u32)),
    ActError,
> {
    let t = split_tokens(line);
    if t.len() < 1 {
        Err(ActError::MissingX)
    } else {
        match usize_value(t[0]) {
            None => Err(ActError::BadNumber),
            Some(x) => if t.len() < 2 {
                Err(ActError::MissingY)
            } else {
                match usize_value(t[1]) {
                    None => Err(ActError::BadNumber),
                    Some(y) => if t.len() < 3 {
                        Err(ActError::MissingIndex)
                    } else {
                        match usize_value(t[2]) {
                            None => Err(ActError::BadNumber),
                            Some(idx) => {
                                let flags = if t.len() < 4 {
                                    Some(0u32)
                                } else {
                                    u32_value(t[3])
                                };
                                match flags {
                                    None => Err(ActError::BadNumber),
                                    Some(f) => if x % 128 != 0 || y % 128 != 0 {
                                        Err(ActError::InvalidTilePosition(x, y))
                                    } else if x / 128 >= width || y / 128 >= height {
                                        Err(
                                            ActError::OutOfRangeTilePosition(
                                                (x / 128) as usize,
                                                (y / 128) as usize,
                                            ),
                                        )
                                    } else if t.len() > 4 {
                                        Err(ActError::TrailingTileData)
                                    } else {
                                        Ok(((x / 128) + (y / 128) * width, (idx, f)))
                                    },
                                }
                            },
                        }
                    },
                }
            },
        }
    }
}

/// `grid` with the cells of `records` put in, in order.
pub open spec fn place_records(
    records: Seq<Seq<char>>,
    width: nat,
    height: nat,
    grid: Seq<Option<(usize, u32)>>,
) -> Result<Seq<Option<(usize, u32)>>, ActError>
    decreases records.len(),
{
    if records.len() == 0 {
        Ok(grid)
    } else {
        match parse_record(records[0], width, height) {
            Err(e) => Err(e),
            Ok(r) => place_records(
                records.drop_first(),
                width,
                height,
                grid.update(r.0, Some(r.1)),
            ),
        }
    }
}

pub open spec fn empty_grid(n: nat) -> Seq<Option<(usize, u32)>> {
    Seq::new(n, |i: int| None)
}

/// How many lines after the header are read as tile records: the count
/// that the header gives, or as many lines as are left.
pub open spec fn record_count(lines: Seq<Seq<char>>, h: ActHeader) -> int {
    if h.count <= lines.len() - h.records_start {
        h.count as int
    } else {
        lines.len() - h.records_start
    }
}

/// The lines that are read as tile records.
pub open spec fn tile_records(lines: Seq<Seq<char>>) -> Seq<Seq<char>> {
    match parse_header(lines) {
        Ok(h) => lines.subrange(h.records_start, h.records_start + record_count(lines, h)),
        Err(_) => seq![],
    }
}

/// The level that the lines of a level file describe.
pub open spec fn parse_act_lines(lines: Seq<Seq<char>>) -> Result<ActView, ActError> {
    match parse_header(lines) {
        Err(e) => Err(e),
        Ok(h) => {
            let n = record_count(lines, h);
            match place_records(
                lines.subrange(h.records_start, h.records_start + n),
                h.width,
                h.height,
                empty_grid(h.width * h.height),
            ) {
                Err(e) => Err(e),
                Ok(tiles) => if h.records_start + n < lines.len() {
                    Err(ActError::TrailingLines)
                } else {
                    Ok(
                        ActView {
                            version: h.version,
                            name: h.name,
                            entities: h.entities,
                            width: h.width,
                            tiles,
                        },
                    )
                },
            }
        },
    }
}

/// The level that a level file describes.
pub open spec fn parse_act(s: Seq<char>) -> Result<ActView, ActError> {
    parse_act_lines(split_lines(s))
}

/// Strings of the words `t`.
fn strings_of(t: &Vec<Vec<char>>, from: usize) -> (r: Vec<String>)
    requires
        from <= t@.len(),
    ensures
        strings_view(r@) == lines_view(t@).subrange(from as int, t@.len() as int),
{
    let mut r: Vec<String> = Vec::new();
    let mut i: usize = from;
    while i < t.len()
        invariant
            from <= i <= t@.len(),
            strings_view(r@) =~= lines_view(t@).subrange(from as int, i as int),
        decreases t@.len() - i,
    {
        let s = string_of(&t[i]);
        let ghost before = r@;
        r.push(s);
        proof {
            assert(r@ == before.push(s));
            assert(strings_view(r@) =~= strings_view(before).push(s@));
            assert(lines_view(t@).subrange(from as int, i + 1) =~= lines_view(t@).subrange(
                from as int,
                i as int,
            ).push(t@[i as int]@));
        }
        i += 1;
    }
    r
}

/// An entity line, as `parse_entity` says.
fn entity_of(line: &Vec<char>) -> (r: Result<EntityRecord, ActError>)
    ensures
        match r {
            Ok(e) => parse_entity(line@) == Ok::<EntityView, ActError>(e@),
            Err(e) => parse_entity(line@) == Err::<EntityView, ActError>(e),
        },
{
    let t = tokens_of(line);
    proof {
        assert(lines_view(t@) =~= split_tokens(line@));
    }
    if t.len() < 1 {
        return Err(ActError::MissingEntityX);
    }
    if t.len() < 2 {
        return Err(ActError::MissingEntityY);
    }
    if t.len() < 3 {
        return Err(ActError::MissingEntityKind);
    }
    let x = string_of(&t[0]);
    let y = string_of(&t[1]);
    let kind = string_of(&t[2]);
    let flags = strings_of(&t, 3);
    let e = EntityRecord { x, y, kind, flags };
    proof {
        assert(e@ == EntityView {
            x: split_tokens(line@)[0],
            y: split_tokens(line@)[1],
            kind: split_tokens(line@)[2],
            flags: split_tokens(line@).subrange(3, split_tokens(line@).len() as int),
        });
    }
    Ok(e)
}

/// The entity lines from `from` up to `to`, as `read_entities` says.
fn entities_of(lines: &Vec<Vec<char>>, from: usize, to: usize) -> (r: Result<
    Vec<EntityRecord>,
    ActError,
>)
    requires
        from <= to <= lines@.len(),
    ensures
        match r {
            Ok(v) => read_entities(lines_view(lines@).subrange(from as int, to as int), seq![])
                == Ok::<Seq<EntityView>, ActError>(entities_view(v@)),
            Err(e) => read_entities(lines_view(lines@).subrange(from as int, to as int), seq![])
                == Err::<Seq<EntityView>, ActError>(e),
        },
{
    let ghost all = lines_view(lines@).subrange(from as int, to as int);
    let mut v: Vec<EntityRecord> = Vec::new();
    let mut i: usize = from;
    assert(entities_view(v@) =~= seq![]);
    while i < to
        invariant
            from <= i <= to <= lines@.len(),
            all == lines_view(lines@).subrange(from as int, to as int),
            read_entities(all, seq![]) == read_entities(
                lines_view(lines@).subrange(i as int, to as int),
                entities_view(v@),
            ),
        decreases to - i,
    {
        let ghost rest = lines_view(lines@).subrange(i as int, to as int);
        assert(rest[0] == lines@[i as int]@);
        assert(rest.drop_first() =~= lines_view(lines@).subrange(i + 1, to as int));
        match entity_of(&lines[i]) {
            Ok(e) => {
                proof {
                    assert(entities_view(v@).push(e@) =~= entities_view(v@.push(e)));
                }
                v.push(e);
            },
            Err(e) => {
                return Err(e);
            },
        }
        i += 1;
    }
    proof {
        assert(lines_view(lines@).subrange(i as int, to as int) =~= Seq::<Seq<char>>::empty());
    }
    Ok(v)
}

/// `t` read as a `usize`, as `usize_value` says.
fn usize_of(t: &Vec<char>) -> (r: Option<usize>)
    ensures
        r == usize_value(t@),
{
    match parse_decimal(t, usize::MAX as u64) {
        Some(v) => Some(v as usize),
        None => None,
    }
}

/// `t` read as a `u32`, as `u32_value` says.
fn u32_of(t: &Vec<char>) -> (r: Option<u32>)
    ensures
        r == u32_value(t@),
{
    match parse_decimal(t, u32::MAX as u64) {
        Some(v) => Some(v as u32),
        None => None,
    }
}

/// The grid size line, as `parse_size` says.
fn size_of(line: &Vec<char>) -> (r: Result<(usize, usize), ActError>)
    ensures
        r == parse_size(line@),
{
    let t = tokens_of(line);
    if t.len() < 1 {
        return Err(ActError::MissingWidth);
    }
    let w = match usize_of(&t[0]) {
        Some(w) => w,
        None => {
            return Err(ActError::BadNumber);
        },
    };
    if t.len() < 2 {
        return Err(ActError::MissingHeight);
    }
    let h = match usize_of(&t[1]) {
        Some(h) => h,
        None => {
            return Err(ActError::BadNumber);
        },
    };
    if t.len() > 2 {
        return Err(ActError::TrailingSizeData);
    }
    Ok((w, h))
}

/// A tile record, as `parse_record` says.
fn record_of(line: &Vec<char>, width: usize, height: usize) -> (r: Result<
    (usize, (usize, u32)),
    ActError,
>)
    requires
        width * height <= usize::MAX,
    ensures
        match r {
            Ok(p) => parse_record(line@, width as nat, height as nat) == Ok::<
                (int, (usize, u32)),
                ActError,
            >((p.0 as int, p.1)) && p.0 < width * height,
            Err(e) => parse_record(line@, width as nat, height as nat) == Err::<
                (int, (usize, u32)),
                ActError,
            >(e),
        },
{
    let t = tokens_of(line);
    if t.len() < 1 {
        return Err(ActError::MissingX);
    }
    let x = match usize_of(&t[0]) {
        Some(v) => v,
        None => {
            return Err(ActError::BadNumber);
        },
    };
    if t.len() < 2 {
        return Err(ActError::MissingY);
    }
    let y = match usize_of(&t[1]) {
        Some(v) => v,
        None => {
            return Err(ActError::BadNumber);
        },
    };
    if t.len() < 3 {
        return Err(ActError::MissingIndex);
    }
    let idx = match usize_of(&t[2]) {
        Some(v) => v,
        None => {
            return Err(ActError::BadNumber);
        },
    };
    let flags = if t.len() < 4 {
        0u32
    } else {
        match u32_of(&t[3]) {
            Some(v) => v,
            None => {
                return Err(ActError::BadNumber);
            },
        }
    };
    if x % 128 != 0 || y % 128 != 0 {
        return Err(ActError::InvalidTilePosition(x, y));
    }
    let bx = x / 128;
    let by = y / 128;
    if bx >= width || by >= height {
        return Err(ActError::OutOfRangeTilePosition(bx, by));
    }
    if t.len() > 4 {
        return Err(ActError::TrailingTileData);
    }
    proof {
        assert(by * width + bx < width * height) by (nonlinear_arith)
            requires
                bx < width,
                by < height,
        ;
    }
    Ok((bx + by * width, (idx, flags)))
}

/// A grid of `n` empty cells.
fn empty_cells(n: usize) -> (r: Vec<Option<(usize, u32)>>)
    ensures
        r@ == empty_grid(n as nat),
{
    let mut r: Vec<Option<(usize, u32)>> = Vec::new();
    let mut i: usize = 0;
    while i < n
        invariant
            i <= n,
            r@ =~= empty_grid(i as nat),
        decreases n - i,
    {
        r.push(None);
        i += 1;
        proof {
            assert(r@ =~= empty_grid(i as nat));
        }
    }
    r
}

/// The tile records from `from` up to `to`, put into an empty grid, as
/// `place_records` says.
fn place_all(lines: &Vec<Vec<char>>, from: usize, to: usize, width: usize, height: usize) -> (r:
    Result<Vec<Option<(usize, u32)>>, ActError>)
    requires
        from <= to <= lines@.len(),
        width * height <= usize::MAX,
    ensures
        match r {
            Ok(g) => place_records(
                lines_view(lines@).subrange(from as int, to as int),
                width as nat,
                height as nat,
                empty_grid((width * height) as nat),
            ) == Ok::<Seq<Option<(usize, u32)>>, ActError>(g@),
            Err(e) => place_records(
                lines_view(lines@).subrange(from as int, to as int),
                width as nat,
                height as nat,
                empty_grid((width * height) as nat),
            ) == Err::<Seq<Option<(usize, u32)>>, ActError>(e),
        },
{
    let ghost goal = place_records(
        lines_view(lines@).subrange(from as int, to as int),
        width as nat,
        height as nat,
        empty_grid((width * height) as nat),
    );
    let mut grid = empty_cells(width * height);
    let mut i: usize = from;
    while i < to
        invariant
            from <= i <= to <= lines@.len(),
            width * height <= usize::MAX,
            grid@.len() == width * height,
            goal == place_records(
                lines_view(lines@).subrange(from as int, to as int),
                width as nat,
                height as nat,
                empty_grid((width * height) as nat),
            ),
            goal == place_records(
                lines_view(lines@).subrange(i as int, to as int),
                width as nat,
                height as nat,
                grid@,
            ),
        decreases to - i,
    {
        let ghost rest = lines_view(lines@).subrange(i as int, to as int);
        assert(rest[0] == lines@[i as int]@);
        assert(rest.drop_first() =~= lines_view(lines@).subrange(i + 1, to as int));
        match record_of(&lines[i], width, height) {
            Ok(p) => {
                grid.set(p.0, Some(p.1));
            },
            Err(e) => {
                assert(place_records(rest, width as nat, height as nat, grid@) == Err::<
                    Seq<Option<(usize, u32)>>,
                    ActError,
                >(e));
                return Err(e);
            },
        }
        i += 1;
    }
    proof {
        assert(lines_view(lines@).subrange(i as int, to as int) =~= Seq::<Seq<char>>::empty());
    }
    Ok(grid)
}

/// First line at or after `from` that is the marker line, or the number of
/// lines.
fn find_marker(lines: &Vec<Vec<char>>, from: usize) -> (r: usize)
    requires
        from <= lines@.len(),
    ensures
        from <= r <= lines@.len(),
        r == from + find_first(
            lines_view(lines@).subrange(from as int, lines@.len() as int),
            marker_line(),
        ),
{
    let mut i: usize = from;
    while i < lines.len() && !is_text(&lines[i], "E")
        invariant
            from <= i <= lines@.len(),
            forall|k: int| from <= k < i ==> lines@[k]@ != marker_line(),
        decreases lines@.len() - i,
    {
        i += 1;
    }
    proof {
        let sub = lines_view(lines@).subrange(from as int, lines@.len() as int);
        assert forall|k: int| 0 <= k < i - from implies sub[k] != marker_line() by {
            assert(sub[k] == lines@[k + from]@);
        }
        if i < lines@.len() {
            assert(sub[i - from] == lines@[i as int]@);
        }
        lemma_find_first_at(sub, marker_line(), i - from);
        lemma_find_first_bounds(sub, marker_line());
    }
    i
}

/// The four fixed lines stand at `at`.
fn metadata_at(lines: &Vec<Vec<char>>, at: usize) -> (r: bool)
    ensures
        r == (at + 4 <= lines@.len() && lines_view(lines@).subrange(at as int, at + 4)
            == metadata_lines()),
{
    if at > lines.len() || lines.len() - at < 4 {
        return false;
    }
    let ok = is_text(&lines[at], "NORMAL") && is_text(&lines[at + 1], "EmeraldHillZone.png")
        && is_text(&lines[at + 2], "EmeraldHillZone/Block") && is_text(
        &lines[at + 3],
        "EmeraldHillZone/Background/",
    );
    proof {
        let sub = lines_view(lines@).subrange(at as int, at + 4);
        if ok {
            assert(sub =~= metadata_lines());
        } else if sub == metadata_lines() {
            assert(sub[0] == metadata_lines()[0]);
            assert(sub[1] == metadata_lines()[1]);
            assert(sub[2] == metadata_lines()[2]);
            assert(sub[3] == metadata_lines()[3]);
        }
    }
    ok
}

impl ActFile {
    /// Reads a level file.
    pub fn parse(s: &str) -> (r: Result<ActFile, ActError>)
        ensures
            match r {
                Ok(a) => parse_act(s@) == Ok::<ActView, ActError>(a@),
                Err(e) => parse_act(s@) == Err::<ActView, ActError>(e),
            },
    {
        let chars = chars_of(s);
        let lines = lines_of(&chars);
        let ghost ls = split_lines(s@);
        proof {
            assert(lines_view(lines@) =~= ls);
        }
        if lines.len() < 1 {
            return Err(ActError::MissingVersion);
        }
        if lines.len() < 2 {
            return Err(ActError::MissingName);
        }
        let e = find_marker(&lines, 2);
        let entities = match entities_of(&lines, 2, e) {
            Ok(v) => v,
            Err(err) => {
                return Err(err);
            },
        };
        if e == lines.len() || !metadata_at(&lines, e + 1) {
            return Err(ActError::UnexpectedMetadata);
        }
        if lines.len() <= e + 5 {
            return Err(ActError::MissingTileCount);
        }
        let count = match usize_of(&lines[e + 5]) {
            Some(c) => c,
            None => {
                return Err(ActError::BadNumber);
            },
        };
        if lines.len() <= e + 6 {
            return Err(ActError::MissingSize);
        }
        let (width, height) = match size_of(&lines[e + 6]) {
            Ok(wh) => wh,
            Err(err) => {
                return Err(err);
            },
        };
        if height != 0 && width > usize::MAX / height {
            proof {
                assert(width * height > usize::MAX) by (nonlinear_arith)
                    requires
                        height > 0,
                        width > usize::MAX / height,
                ;
            }
            return Err(ActError::GridTooLarge);
        }
        proof {
            assert(width * height <= usize::MAX) by (nonlinear_arith)
                requires
                    height == 0 || width <= usize::MAX / height,
            ;
        }
        let start = e + 7;
        let left = lines.len() - start;
        let n = if count <= left {
            count
        } else {
            left
        };
        let tiles = match place_all(&lines, start, start + n, width, height) {
            Ok(g) => g,
            Err(err) => {
                return Err(err);
            },
        };
        if start + n < lines.len() {
            return Err(ActError::TrailingLines);
        }
        let version = string_of(&lines[0]);
        let name = string_of(&lines[1]);
        Ok(ActFile { version, name, entities, width, tiles })
    }
}


/// The words `fs`, each followed by a space.
pub open spec fn words_text(fs: Seq<Seq<char>>) -> Seq<char>
    decreases fs.len(),
{
    if fs.len() == 0 {
        seq![]
    } else {
        fs[0] + seq![' '] + words_text(fs.drop_first())
    }
}

/// The line of an entity: its x, y, kind and flags, each followed by a space.
pub open spec fn entity_text(e: EntityView) -> Seq<char> {
    words_text(seq![e.x, e.y, e.kind] + e.flags)
}

/// The lines `ls`, each followed by a line feed.
pub open spec fn join_lines(ls: Seq<Seq<char>>) -> Seq<char>
    decreases ls.len(),
{
    if ls.len() == 0 {
        seq![]
    } else {
        ls[0] + seq!['\n'] + join_lines(ls.drop_first())
    }
}

/// Whole rows of the grid of `a`.
pub open spec fn grid_height(a: ActView) -> nat {
    if a.width == 0 {
        0
    } else {
        a.tiles.len() / a.width
    }
}

/// The tile record of cell `c` at grid position `i`: pixel x, pixel y, block
/// index and flags.
pub open spec fn record_text(i: int, width: nat, c: (usize, u32)) -> Seq<char> {
    decimal(((i % (width as int)) * 128) as nat) + seq![' '] + decimal(
        ((i / (width as int)) * 128) as nat,
    ) + seq![' '] + decimal(c.0 as nat) + seq![' '] + decimal(c.1 as nat)
}

/// The tile records of the filled cells of `tiles` from position `i` on.
pub open spec fn record_lines(tiles: Seq<Option<(usize, u32)>>, width: nat, i: int) -> Seq<
    Seq<char>,
>
    decreases tiles.len() - i,
{
    if width == 0 || i < 0 || i >= tiles.len() {
        seq![]
    } else {
        match tiles[i] {
            None => record_lines(tiles, width, i + 1),
            Some(c) => seq![record_text(i, width, c)] + record_lines(tiles, width, i + 1),
        }
    }
}

/// The lines of the level file that describes `a`.
pub open spec fn act_lines(a: ActView) -> Seq<Seq<char>> {
    let records = record_lines(a.tiles, a.width, 0);
    seq![a.version, a.name] + a.entities.map_values(|e: EntityView| entity_text(e)) + seq![
        marker_line(),
    ] + metadata_lines() + seq![
        decimal(records.len()),
        decimal(a.width) + seq![' '] + decimal(grid_height(a)),
    ] + records
}

/// The level file that describes `a`.
pub open spec fn act_text(a: ActView) -> Seq<char> {
    join_lines(act_lines(a))
}

proof fn lemma_join_push(ls: Seq<Seq<char>>, l: Seq<char>)
    ensures
        join_lines(ls.push(l)) == join_lines(ls) + l + seq!['\n'],
    decreases ls.len(),
{
    if ls.len() == 0 {
        assert(ls.push(l).drop_first() =~= Seq::<Seq<char>>::empty());
        assert(join_lines(Seq::<Seq<char>>::empty()) == Seq::<char>::empty());
        assert(ls.push(l)[0] == l);
        assert(join_lines(ls.push(l)) =~= join_lines(ls) + l + seq!['\n']);
    } else {
        assert(ls.push(l).drop_first() =~= ls.drop_first().push(l));
        lemma_join_push(ls.drop_first(), l);
        assert(join_lines(ls.push(l)) =~= join_lines(ls) + l + seq!['\n']);
    }
}

proof fn lemma_words_push(fs: Seq<Seq<char>>, f: Seq<char>)
    ensures
        words_text(fs.push(f)) == words_text(fs) + f + seq![' '],
    decreases fs.len(),
{
    if fs.len() == 0 {
        assert(fs.push(f).drop_first() =~= Seq::<Seq<char>>::empty());
        assert(words_text(Seq::<Seq<char>>::empty()) == Seq::<char>::empty());
        assert(fs.push(f)[0] == f);
        assert(words_text(fs.push(f)) =~= words_text(fs) + f + seq![' ']);
    } else {
        assert(fs.push(f).drop_first() =~= fs.drop_first().push(f));
        lemma_words_push(fs.drop_first(), f);
        assert(words_text(fs.push(f)) =~= words_text(fs) + f + seq![' ']);
    }
}

/// Appends `w` and a space.
fn push_word(line: &mut String, w: &String)
    ensures
        final(line)@ == old(line)@ + w@ + seq![' '],
{
    line.append(w.as_str());
    push_char(line, ' ');
}

/// Appends `l` and a line feed.
fn push_line(out: &mut String, l: &str)
    ensures
        final(out)@ == old(out)@ + l@ + seq!['\n'],
{
    out.append(l);
    push_char(out, '\n');
}

impl EntityRecord {
    /// Reads an entity line, as `parse_entity` says.
    pub fn parse_line(line: &str) -> (r: Result<EntityRecord, ActError>)
        ensures
            match r {
                Ok(e) => parse_entity(line@) == Ok::<EntityView, ActError>(e@),
                Err(e) => parse_entity(line@) == Err::<EntityView, ActError>(e),
            },
    {
        let chars = chars_of(line);
        entity_of(&chars)
    }

    /// The line that describes this entity.
    pub fn to_line(&self) -> (r: String)
        ensures
            r@ == entity_text(self@),
    {
        let mut line = String::new();
        let ghost words: Seq<Seq<char>> = seq![];
        proof {
            assert(line@ =~= words_text(words));
        }
        push_word(&mut line, &self.x);
        proof {
            lemma_words_push(words, self.x@);
            words = words.push(self.x@);
        }
        push_word(&mut line, &self.y);
        proof {
            lemma_words_push(words, self.y@);
            words = words.push(self.y@);
        }
        push_word(&mut line, &self.kind);
        proof {
            lemma_words_push(words, self.kind@);
            words = words.push(self.kind@);
            assert(words =~= seq![self.x@, self.y@, self.kind@]);
        }
        let mut k: usize = 0;
        while k < self.flags.len()
            invariant
                k <= self.flags@.len(),
                words == seq![self.x@, self.y@, self.kind@] + strings_view(self.flags@).subrange(
                    0,
                    k as int,
                ),
                line@ == words_text(words),
            decreases self.flags@.len() - k,
        {
            push_word(&mut line, &self.flags[k]);
            proof {
                lemma_words_push(words, self.flags@[k as int]@);
                words = words.push(self.flags@[k as int]@);
                assert(words =~= seq![self.x@, self.y@, self.kind@] + strings_view(
                    self.flags@,
                ).subrange(0, k + 1));
            }
            k += 1;
        }
        proof {
            assert(words =~= seq![self@.x, self@.y, self@.kind] + self@.flags);
        }
        line
    }
}

/// How many cells of `tiles` hold a block, as `record_lines` counts them.
fn filled_count(tiles: &Vec<Option<(usize, u32)>>, width: usize) -> (r: usize)
    ensures
        r == record_lines(tiles@, width as nat, 0).len(),
{
    if width == 0 {
        return 0;
    }
    let mut n: usize = 0;
    let mut i: usize = tiles.len();
    while i > 0
        invariant
            i <= tiles@.len(),
            tiles@.len() <= usize::MAX,
            width > 0,
            n == record_lines(tiles@, width as nat, i as int).len(),
            n <= tiles@.len() - i,
        decreases i,
    {
        i -= 1;
        if tiles[i].is_some() {
            n += 1;
        }
    }
    n
}

impl ActFile {
    /// The level file that describes this level.
    pub fn to_text(&self) -> (r: String)
        ensures
            r@ == act_text(self@),
    {
        let mut out = String::new();
        let ghost done: Seq<Seq<char>> = seq![];
        proof {
            assert(out@ =~= join_lines(done));
        }
        push_line(&mut out, self.version.as_str());
        proof {
            lemma_join_push(done, self.version@);
            done = done.push(self.version@);
        }
        push_line(&mut out, self.name.as_str());
        proof {
            lemma_join_push(done, self.name@);
            done = done.push(self.name@);
        }
        let ghost ents = self@.entities.map_values(|e: EntityView| entity_text(e));
        let mut k: usize = 0;
        while k < self.entities.len()
            invariant
                k <= self.entities@.len(),
                ents == self@.entities.map_values(|e: EntityView| entity_text(e)),
                done == seq![self@.version, self@.name] + ents.subrange(0, k as int),
                out@ == join_lines(done),
            decreases self.entities@.len() - k,
        {
            let line = self.entities[k].to_line();
            push_line(&mut out, line.as_str());
            proof {
                lemma_join_push(done, line@);
                done = done.push(line@);
                assert(done =~= seq![self@.version, self@.name] + ents.subrange(0, k + 1));
            }
            k += 1;
        }
        push_line(&mut out, "E");
        push_line(&mut out, "NORMAL");
        push_line(&mut out, "EmeraldHillZone.png");
        push_line(&mut out, "EmeraldHillZone/Block");
        push_line(&mut out, "EmeraldHillZone/Background/");
        proof {
            lemma_join_push(done, "E"@);
            lemma_join_push(done.push("E"@), "NORMAL"@);
            lemma_join_push(done.push("E"@).push("NORMAL"@), "EmeraldHillZone.png"@);
            lemma_join_push(
                done.push("E"@).push("NORMAL"@).push("EmeraldHillZone.png"@),
                "EmeraldHillZone/Block"@,
            );
            lemma_join_push(
                done.push("E"@).push("NORMAL"@).push("EmeraldHillZone.png"@).push(
                    "EmeraldHillZone/Block"@,
                ),
                "EmeraldHillZone/Background/"@,
            );
            done = done.push("E"@).push("NORMAL"@).push("EmeraldHillZone.png"@).push(
                "EmeraldHillZone/Block"@,
            ).push("EmeraldHillZone/Background/"@);
        }
        let count = filled_count(&self.tiles, self.width);
        let before = out.clone();
        push_decimal(&mut out, count as u128);
        push_char(&mut out, '\n');
        proof {
            lemma_join_push(done, decimal(count as nat));
            assert(out@ =~= join_lines(done) + decimal(count as nat) + seq!['\n']);
            done = done.push(decimal(count as nat));
        }
        let height: usize = if self.width == 0 {
            0
        } else {
            self.tiles.len() / self.width
        };
        let ghost size_start = out@;
        push_decimal(&mut out, self.width as u128);
        push_char(&mut out, ' ');
        push_decimal(&mut out, height as u128);
        push_char(&mut out, '\n');
        proof {
            let size_line = decimal(self.width as nat) + seq![' '] + decimal(height as nat);
            lemma_join_push(done, size_line);
            assert(out@ =~= join_lines(done) + size_line + seq!['\n']);
            done = done.push(size_line);
        }
        let ghost head = done;
        let mut i: usize = 0;
        if self.width > 0 {
            while i < self.tiles.len()
                invariant
                    self.width > 0,
                    i <= self.tiles@.len(),
                    out@ == join_lines(done),
                    done + record_lines(self.tiles@, self.width as nat, i as int) == head
                        + record_lines(self.tiles@, self.width as nat, 0),
                decreases self.tiles@.len() - i,
            {
                match self.tiles[i] {
                    Some(c) => {
                        let w = self.width;
                        push_decimal(&mut out, ((i % w) as u128) * 128);
                        push_char(&mut out, ' ');
                        push_decimal(&mut out, ((i / w) as u128) * 128);
                        push_char(&mut out, ' ');
                        push_decimal(&mut out, c.0 as u128);
                        push_char(&mut out, ' ');
                        push_decimal(&mut out, c.1 as u128);
                        push_char(&mut out, '\n');
                        proof {
                            let rt = record_text(i as int, w as nat, c);
                            lemma_join_push(done, rt);
                            assert(out@ =~= join_lines(done) + rt + seq!['\n']);
                            assert(done.push(rt) + record_lines(self.tiles@, w as nat, i + 1)
                                =~= done + record_lines(self.tiles@, w as nat, i as int));
                            done = done.push(rt);
                        }
                    },
                    None => {},
                }
                i += 1;
            }
        }
        proof {
            assert(record_lines(self.tiles@, self.width as nat, i as int) =~= Seq::<
                Seq<char>,
            >::empty());
            assert(done =~= act_lines(self@));
        }
        out
    }
}

} // verus!
