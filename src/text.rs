use vstd::prelude::*;

verus! {

/// Position of the first `x` in `s`, or the length of `s` when there is none.
pub open spec fn find_first<T>(s: Seq<T>, x: T) -> int
    decreases s.len(),
{
    if s.len() == 0 {
        0
    } else if s[0] == x {
        0
    } else {
        1 + find_first(s.drop_first(), x)
    }
}

/// `l` without a trailing carriage return.
pub open spec fn strip_cr(l: Seq<char>) -> Seq<char> {
    if l.len() > 0 && l.last() == '\r' {
        l.drop_last()
    } else {
        l
    }
}

/// The lines of `s`. Each '\n' ends a line, together with a '\r' just before
/// it; the last line needs no ending, and an empty text has no lines.
pub open spec fn split_lines(s: Seq<char>) -> Seq<Seq<char>>
    decreases s.len(),
{
    if s.len() == 0 {
        seq![]
    } else {
        let e = find_first(s, '\n');
        if 0 <= e < s.len() {
            seq![strip_cr(s.subrange(0, e))] + split_lines(s.subrange(e + 1, s.len() as int))
        } else {
            seq![s]
        }
    }
}

/// The words of `l`: its maximal runs of characters other than ' '.
pub open spec fn split_tokens(l: Seq<char>) -> Seq<Seq<char>>
    decreases l.len(),
{
    if l.len() == 0 {
        seq![]
    } else if l[0] == ' ' {
        split_tokens(l.drop_first())
    } else {
        let e = find_first(l, ' ');
        if 0 < e <= l.len() {
            seq![l.subrange(0, e)] + split_tokens(l.subrange(e, l.len() as int))
        } else {
            seq![l]
        }
    }
}

pub open spec fn is_digit(c: char) -> bool {
    '0' <= c <= '9'
}

pub open spec fn digit_value(c: char) -> nat {
    (c as int - '0' as int) as nat
}

/// The character of decimal digit `d`.
pub open spec fn digit_char(d: nat) -> char {
    ((d + '0' as int) as u8) as char
}

/// The number that a run of decimal digits writes.
pub open spec fn digits_value(d: Seq<char>) -> nat
    decreases d.len(),
{
    if d.len() == 0 {
        0
    } else {
        digits_value(d.drop_last()) * 10 + digit_value(d.last())
    }
}

/// The number that `t` writes in decimal, after an optional '+'; nothing
/// when `t` holds anything else.
pub open spec fn decimal_value(t: Seq<char>) -> Option<nat> {
    let d = unsigned_digits(t);
    if d.len() > 0 && all_digits(d) {
        Some(digits_value(d))
    } else {
        None
    }
}

/// `t` without a leading '+'.
pub open spec fn unsigned_digits(t: Seq<char>) -> Seq<char> {
    if t.len() > 0 && t[0] == '+' {
        t.drop_first()
    } else {
        t
    }
}

pub open spec fn all_digits(d: Seq<char>) -> bool {
    forall|i: int| 0 <= i < d.len() ==> is_digit(#[trigger] d[i])
}

/// `t` read as a `usize`: decimal, and in range.
pub open spec fn usize_value(t: Seq<char>) -> Option<usize> {
    match decimal_value(t) {
        Some(v) => if v <= usize::MAX {
            Some(v as usize)
        } else {
            None
        },
        None => None,
    }
}

/// `t` read as a `u32`: decimal, and in range.
pub open spec fn u32_value(t: Seq<char>) -> Option<u32> {
    match decimal_value(t) {
        Some(v) => if v <= u32::MAX {
            Some(v as u32)
        } else {
            None
        },
        None => None,
    }
}

/// The decimal digits of `n`, without leading zeros.
pub open spec fn decimal(n: nat) -> Seq<char>
    decreases n,
{
    if n < 10 {
        seq![digit_char(n)]
    } else {
        decimal(n / 10) + seq![digit_char(n % 10)]
    }
}

pub proof fn lemma_find_first_bounds<T>(s: Seq<T>, x: T)
    ensures
        0 <= find_first(s, x) <= s.len(),
        find_first(s, x) < s.len() ==> s[find_first(s, x)] == x,
        forall|k: int| 0 <= k < find_first(s, x) ==> s[k] != x,
    decreases s.len(),
{
    if s.len() > 0 && s[0] != x {
        lemma_find_first_bounds(s.drop_first(), x);
        assert forall|k: int| 0 <= k < find_first(s, x) implies s[k] != x by {
            if k > 0 {
                assert(s[k] == s.drop_first()[k - 1]);
            }
        }
    }
}

/// `find_first` is the first place that holds `x`, or the end.
pub proof fn lemma_find_first_at<T>(s: Seq<T>, x: T, p: int)
    requires
        0 <= p <= s.len(),
        forall|k: int| 0 <= k < p ==> s[k] != x,
        p < s.len() ==> s[p] == x,
    ensures
        find_first(s, x) == p,
    decreases s.len(),
{
    if s.len() > 0 && p > 0 {
        assert forall|k: int| 0 <= k < p - 1 implies s.drop_first()[k] != x by {
            assert(s.drop_first()[k] == s[k + 1]);
        }
        lemma_find_first_at(s.drop_first(), x, p - 1);
    }
}

/// No character of `s` is `c`.
pub open spec fn no_char(s: Seq<char>, c: char) -> bool {
    forall|i: int| 0 <= i < s.len() ==> s[i] != c
}

pub open spec fn ends_with_cr(l: Seq<char>) -> bool {
    l.len() > 0 && l.last() == '\r'
}

/// A word: not empty, with no space and no line feed.
pub open spec fn is_word(w: Seq<char>) -> bool {
    w.len() > 0 && no_char(w, ' ') && no_char(w, '\n')
}

/// A line that `split_lines` gives back as it is: no line feed, and no
/// carriage return at its end.
pub open spec fn is_plain_line(l: Seq<char>) -> bool {
    no_char(l, '\n') && !ends_with_cr(l)
}

pub proof fn lemma_split_lines_cons(l: Seq<char>, r: Seq<char>)
    requires
        is_plain_line(l),
    ensures
        split_lines(l + seq!['\n'] + r) == seq![l] + split_lines(r),
{
    let s = l + seq!['\n'] + r;
    assert forall|k: int| 0 <= k < l.len() implies s[k] != '\n' by {
        assert(s[k] == l[k]);
    }
    assert(s[l.len() as int] == '\n');
    lemma_find_first_at(s, '\n', l.len() as int);
    assert(s.subrange(0, l.len() as int) =~= l);
    assert(s.subrange(l.len() as int + 1, s.len() as int) =~= r);
}

pub proof fn lemma_split_tokens_cons(t: Seq<char>, r: Seq<char>)
    requires
        t.len() > 0,
        no_char(t, ' '),
    ensures
        split_tokens(t + seq![' '] + r) == seq![t] + split_tokens(r),
{
    let l = t + seq![' '] + r;
    assert forall|k: int| 0 <= k < t.len() implies l[k] != ' ' by {
        assert(l[k] == t[k]);
    }
    assert(l[t.len() as int] == ' ');
    lemma_find_first_at(l, ' ', t.len() as int);
    assert(l[0] == t[0]);
    assert(l.subrange(0, t.len() as int) =~= t);
    let rest = l.subrange(t.len() as int, l.len() as int);
    assert(rest =~= seq![' '] + r);
    assert(rest.drop_first() =~= r);
    assert(split_tokens(rest) == split_tokens(r));
    assert(split_tokens(l) == seq![t] + split_tokens(rest));
}

pub proof fn lemma_split_tokens_single(t: Seq<char>)
    requires
        t.len() > 0,
        no_char(t, ' '),
    ensures
        split_tokens(t) == seq![t],
{
    lemma_find_first_at(t, ' ', t.len() as int);
    assert(t.subrange(0, t.len() as int) =~= t);
    assert(t.subrange(t.len() as int, t.len() as int) =~= Seq::<char>::empty());
    assert(split_tokens(Seq::<char>::empty()) == Seq::<Seq<char>>::empty());
    assert(split_tokens(t) =~= seq![t] + split_tokens(Seq::<char>::empty()));
}

/// Every line of a text is free of line feeds.
pub proof fn lemma_lines_without_newline(s: Seq<char>)
    ensures
        forall|i: int| 0 <= i < split_lines(s).len() ==> no_char(#[trigger] split_lines(s)[i], '\n'),
    decreases s.len(),
{
    if s.len() > 0 {
        let e = find_first(s, '\n');
        lemma_find_first_bounds(s, '\n');
        if 0 <= e < s.len() {
            let rest = s.subrange(e + 1, s.len() as int);
            lemma_lines_without_newline(rest);
            let first = strip_cr(s.subrange(0, e));
            assert(no_char(first, '\n')) by {
                assert forall|k: int| 0 <= k < first.len() implies first[k] != '\n' by {
                    assert(first[k] == s[k]);
                }
            }
            assert forall|i: int| 0 <= i < split_lines(s).len() implies no_char(
                #[trigger] split_lines(s)[i],
                '\n',
            ) by {
                if i > 0 {
                    assert(split_lines(s)[i] == split_lines(rest)[i - 1]);
                }
            }
        }
    }
}

/// Every word of a line without line feeds is a word.
pub proof fn lemma_tokens_are_words(l: Seq<char>)
    requires
        no_char(l, '\n'),
    ensures
        forall|i: int| 0 <= i < split_tokens(l).len() ==> is_word(#[trigger] split_tokens(l)[i]),
    decreases l.len(),
{
    if l.len() > 0 {
        if l[0] == ' ' {
            assert(no_char(l.drop_first(), '\n')) by {
                assert forall|k: int| 0 <= k < l.drop_first().len() implies l.drop_first()[k]
                    != '\n' by {
                    assert(l.drop_first()[k] == l[k + 1]);
                }
            }
            lemma_tokens_are_words(l.drop_first());
            assert(split_tokens(l) == split_tokens(l.drop_first()));
        } else {
            let e = find_first(l, ' ');
            lemma_find_first_bounds(l, ' ');
            assert(e > 0);
            let rest = l.subrange(e, l.len() as int);
            assert(no_char(rest, '\n')) by {
                assert forall|k: int| 0 <= k < rest.len() implies rest[k] != '\n' by {
                    assert(rest[k] == l[k + e]);
                }
            }
            lemma_tokens_are_words(rest);
            let w = l.subrange(0, e);
            assert(is_word(w)) by {
                assert forall|k: int| 0 <= k < w.len() implies w[k] != '\n' && w[k] != ' ' by {
                    assert(w[k] == l[k]);
                }
            }
            assert(split_tokens(l) == seq![w] + split_tokens(rest));
            assert forall|i: int| 0 <= i < split_tokens(l).len() implies is_word(
                #[trigger] split_tokens(l)[i],
            ) by {
                if i > 0 {
                    assert(split_tokens(l)[i] == split_tokens(rest)[i - 1]);
                }
            }
        }
    }
}

/// The digits of `n` read back as `n`, and hold no space or line ending.
pub proof fn lemma_decimal(n: nat)
    ensures
        decimal(n).len() > 0,
        all_digits(decimal(n)),
        digits_value(decimal(n)) == n,
        decimal_value(decimal(n)) == Some(n),
        no_char(decimal(n), ' '),
        is_plain_line(decimal(n)),
    decreases n,
{
    let d = decimal(n);
    let c = digit_char(n % 10);
    assert(is_digit(c) && digit_value(c) == n % 10) by {
        let k = n % 10;
        assert(0 <= k < 10);
        assert(((k + 48) as u8) as char as int == k + 48);
    }
    if n >= 10 {
        lemma_decimal(n / 10);
        assert(d =~= decimal(n / 10) + seq![c]);
        assert(d.drop_last() =~= decimal(n / 10));
        assert(d.last() == c);
        assert(digits_value(d) == digits_value(decimal(n / 10)) * 10 + digit_value(c));
        assert(n == (n / 10) * 10 + n % 10);
        assert(all_digits(d)) by {
            assert forall|i: int| 0 <= i < d.len() implies is_digit(#[trigger] d[i]) by {
                if i < d.len() - 1 {
                    assert(d[i] == decimal(n / 10)[i]);
                }
            }
        }
    } else {
        assert(n % 10 == n);
        assert(d =~= seq![c]);
        assert(d.drop_last() =~= Seq::<char>::empty());
        assert(digits_value(Seq::<char>::empty()) == 0);
        assert(digits_value(d) == digits_value(d.drop_last()) * 10 + digit_value(d.last()));
    }
    assert(unsigned_digits(d) == d);
    assert(no_char(d, ' ') && no_char(d, '\n') && !ends_with_cr(d)) by {
        assert forall|i: int| 0 <= i < d.len() implies d[i] != ' ' && d[i] != '\n' by {
            assert(is_digit(d[i]));
        }
        assert(is_digit(d[d.len() - 1]));
    }
}

/// Relies on `String::push`: appends one character.
#[verifier::external_body]
pub(crate) fn push_char(s: &mut String, c: char)
    ensures
        final(s)@ == old(s)@.push(c),
{
    s.push(c)
}

/// The characters of `s`, in order.
pub fn chars_of(s: &str) -> (r: Vec<char>)
    ensures
        r@ == s@,
{
    let mut r: Vec<char> = Vec::new();
    for c in it: s.chars()
        invariant
            r@ == it.seq().take(it.index() as int),
            it.seq() == s@,
    {
        r.push(c);
    }
    proof {
        assert(r@ =~= s@);
    }
    r
}

/// A string of the characters `v`.
pub fn string_of(v: &Vec<char>) -> (r: String)
    ensures
        r@ == v@,
{
    let mut r = String::new();
    let mut i: usize = 0;
    while i < v.len()
        invariant
            i <= v@.len(),
            r@ == v@.subrange(0, i as int),
        decreases v@.len() - i,
    {
        push_char(&mut r, v[i]);
        i += 1;
        proof {
            assert(r@ =~= v@.subrange(0, i as int));
        }
    }
    proof {
        assert(v@.subrange(0, v@.len() as int) =~= v@);
    }
    r
}

/// The characters of `s` from `from` up to `to`.
pub fn copy_range(s: &Vec<char>, from: usize, to: usize) -> (r: Vec<char>)
    requires
        from <= to <= s@.len(),
    ensures
        r@ == s@.subrange(from as int, to as int),
{
    let mut r: Vec<char> = Vec::new();
    let mut i: usize = from;
    while i < to
        invariant
            from <= i <= to <= s@.len(),
            r@ == s@.subrange(from as int, i as int),
        decreases to - i,
    {
        r.push(s[i]);
        i += 1;
        proof {
            assert(r@ =~= s@.subrange(from as int, i as int));
        }
    }
    r
}

/// `l` is the text `lit`.
pub fn is_text(l: &Vec<char>, lit: &str) -> (r: bool)
    ensures
        r == (l@ == lit@),
{
    let n = lit.unicode_len();
    if l.len() != n {
        return false;
    }
    let mut i: usize = 0;
    while i < n
        invariant
            i <= n,
            n == lit@.len(),
            l@.len() == n,
            forall|k: int| 0 <= k < i ==> l@[k] == lit@[k],
        decreases n - i,
    {
        if l[i] != lit.get_char(i) {
            return false;
        }
        i += 1;
    }
    assert(l@ =~= lit@);
    true
}

/// First position at or after `from` that holds `c`, or the length.
fn find_from(s: &Vec<char>, c: char, from: usize) -> (r: usize)
    requires
        from <= s@.len(),
    ensures
        from <= r <= s@.len(),
        find_first(s@.subrange(from as int, s@.len() as int), c) == r - from,
{
    let mut i: usize = from;
    while i < s.len() && s[i] != c
        invariant
            from <= i <= s@.len(),
            forall|k: int| from <= k < i ==> s@[k] != c,
        decreases s@.len() - i,
    {
        i += 1;
    }
    proof {
        let sub = s@.subrange(from as int, s@.len() as int);
        lemma_find_first_at(sub, c, i - from);
    }
    i
}

/// The lines of `s`, as `split_lines` says.
pub fn lines_of(s: &Vec<char>) -> (r: Vec<Vec<char>>)
    ensures
        r@.len() == split_lines(s@).len(),
        forall|k: int| 0 <= k < r@.len() ==> (#[trigger] r@[k])@ == split_lines(s@)[k],
{
    let mut r: Vec<Vec<char>> = Vec::new();
    let mut i: usize = 0;
    let ghost done: Seq<Seq<char>> = seq![];
    assert(s@.subrange(0, s@.len() as int) =~= s@);
    while i < s.len()
        invariant
            i <= s@.len(),
            r@.len() == done.len(),
            forall|k: int| 0 <= k < r@.len() ==> (#[trigger] r@[k])@ == done[k],
            split_lines(s@) == done + split_lines(s@.subrange(i as int, s@.len() as int)),
        decreases s@.len() - i,
    {
        let ghost rest = s@.subrange(i as int, s@.len() as int);
        let e = find_from(s, '\n', i);
        let mut line = copy_range(s, i, e);
        if e < s.len() {
            if line.len() > 0 && line[line.len() - 1] == '\r' {
                line.pop();
            }
            proof {
                assert(rest.subrange(0, e - i) =~= s@.subrange(i as int, e as int));
                assert(rest.subrange(e - i + 1, rest.len() as int) =~= s@.subrange(
                    e + 1,
                    s@.len() as int,
                ));
                assert(split_lines(rest) == seq![strip_cr(s@.subrange(i as int, e as int))]
                    + split_lines(s@.subrange(e + 1, s@.len() as int)));
                assert(line@ =~= strip_cr(s@.subrange(i as int, e as int)));
                done = done.push(line@);
                assert(split_lines(s@) =~= done + split_lines(s@.subrange(e + 1, s@.len() as int)));
            }
            r.push(line);
            i = e + 1;
        } else {
            proof {
                assert(rest =~= line@);
                assert(split_lines(rest) == seq![rest]);
                done = done.push(line@);
                assert(s@.subrange(s@.len() as int, s@.len() as int) =~= Seq::<char>::empty());
                assert(split_lines(s@) =~= done + split_lines(
                    s@.subrange(s@.len() as int, s@.len() as int),
                ));
            }
            r.push(line);
            i = e;
        }
    }
    proof {
        assert(s@.subrange(i as int, s@.len() as int) =~= Seq::<char>::empty());
        assert(split_lines(s@) =~= done);
    }
    r
}

/// The words of `l`, as `split_tokens` says.
pub fn tokens_of(l: &Vec<char>) -> (r: Vec<Vec<char>>)
    ensures
        r@.len() == split_tokens(l@).len(),
        forall|k: int| 0 <= k < r@.len() ==> (#[trigger] r@[k])@ == split_tokens(l@)[k],
{
    let mut r: Vec<Vec<char>> = Vec::new();
    let mut i: usize = 0;
    let ghost done: Seq<Seq<char>> = seq![];
    assert(l@.subrange(0, l@.len() as int) =~= l@);
    while i < l.len()
        invariant
            i <= l@.len(),
            r@.len() == done.len(),
            forall|k: int| 0 <= k < r@.len() ==> (#[trigger] r@[k])@ == done[k],
            split_tokens(l@) == done + split_tokens(l@.subrange(i as int, l@.len() as int)),
        decreases l@.len() - i,
    {
        let ghost rest = l@.subrange(i as int, l@.len() as int);
        if l[i] == ' ' {
            proof {
                assert(rest.drop_first() =~= l@.subrange(i + 1, l@.len() as int));
            }
            i += 1;
        } else {
            let e = find_from(l, ' ', i);
            let word = copy_range(l, i, e);
            proof {
                lemma_find_first_bounds(rest.drop_first(), ' ');
                assert(rest.subrange(0, e - i) =~= word@);
                assert(rest.subrange(e - i, rest.len() as int) =~= l@.subrange(
                    e as int,
                    l@.len() as int,
                ));
                done = done.push(word@);
                assert(split_tokens(l@) =~= done + split_tokens(
                    l@.subrange(e as int, l@.len() as int),
                ));
            }
            r.push(word);
            i = e;
        }
    }
    proof {
        assert(l@.subrange(i as int, l@.len() as int) =~= Seq::<char>::empty());
        assert(split_tokens(l@) =~= done);
    }
    r
}

proof fn lemma_digits_step(d: Seq<char>, i: int)
    requires
        0 <= i < d.len(),
    ensures
        digits_value(d.subrange(0, i + 1)) == digits_value(d.subrange(0, i)) * 10 + digit_value(
            d[i],
        ),
{
    assert(d.subrange(0, i + 1).drop_last() =~= d.subrange(0, i));
}

/// A longer run of digits writes a number at least as large.
proof fn lemma_digits_grow(d: Seq<char>, i: int, j: int)
    requires
        0 <= i <= j <= d.len(),
        forall|k: int| 0 <= k < d.len() ==> is_digit(#[trigger] d[k]),
    ensures
        digits_value(d.subrange(0, i)) <= digits_value(d.subrange(0, j)),
    decreases j - i,
{
    if i < j {
        lemma_digits_grow(d, i, j - 1);
        lemma_digits_step(d, j - 1);
    }
}

/// `t` read as a number of at most `max`, as `decimal_value` says.
pub fn parse_decimal(t: &Vec<char>, max: u64) -> (r: Option<u64>)
    ensures
        match r {
            Some(v) => decimal_value(t@) == Some(v as nat) && v <= max,
            None => match decimal_value(t@) {
                Some(v) => v > max,
                None => true,
            },
        },
{
    let start: usize = if t.len() > 0 && t[0] == '+' {
        1
    } else {
        0
    };
    let ghost d = if t@.len() > 0 && t@[0] == '+' {
        t@.drop_first()
    } else {
        t@
    };
    proof {
        assert(d =~= t@.subrange(start as int, t@.len() as int));
    }
    if start >= t.len() {
        return None;
    }
    let mut i: usize = start;
    while i < t.len()
        invariant
            start <= i <= t@.len(),
            d =~= t@.subrange(start as int, t@.len() as int),
            d == unsigned_digits(t@),
            forall|k: int| start <= k < i ==> is_digit(#[trigger] t@[k]),
        decreases t@.len() - i,
    {
        if !('0' <= t[i] && t[i] <= '9') {
            proof {
                assert(!is_digit(d[i - start]));
                assert(!all_digits(d));
            }
            return None;
        }
        i += 1;
    }
    assert(forall|k: int| 0 <= k < d.len() ==> is_digit(#[trigger] d[k])) by {
        assert forall|k: int| 0 <= k < d.len() implies is_digit(#[trigger] d[k]) by {
            assert(d[k] == t@[k + start]);
        }
    }
    let mut v: u64 = 0;
    let mut j: usize = start;
    while j < t.len()
        invariant
            start <= j <= t@.len(),
            d =~= t@.subrange(start as int, t@.len() as int),
            d == unsigned_digits(t@),
            forall|k: int| 0 <= k < d.len() ==> is_digit(#[trigger] d[k]),
            v == digits_value(d.subrange(0, j - start)),
            v <= max,
        decreases t@.len() - j,
    {
        let c = t[j];
        assert(c == d[j - start]);
        let dv = (c as u32 - '0' as u32) as u64;
        proof {
            lemma_digits_step(d, j - start);
        }
        if dv > max {
            proof {
                lemma_digits_grow(d, j - start + 1, d.len() as int);
                assert(d.subrange(0, d.len() as int) =~= d);
            }
            return None;
        }
        if v > (max - dv) / 10 {
            proof {
                assert(v * 10 + dv > max) by (nonlinear_arith)
                    requires
                        v > (max - dv) / 10,
                        dv <= max,
                ;
                lemma_digits_grow(d, j - start + 1, d.len() as int);
                assert(d.subrange(0, d.len() as int) =~= d);
            }
            return None;
        }
        assert(v * 10 + dv <= max) by (nonlinear_arith)
            requires
                v <= (max - dv) / 10,
                dv <= max,
        ;
        v = v * 10 + dv;
        j += 1;
    }
    proof {
        assert(d.subrange(0, d.len() as int) =~= d);
    }
    Some(v)
}

/// Appends the decimal digits of `n`.
pub fn push_decimal(out: &mut String, n: u128)
    ensures
        final(out)@ == old(out)@ + decimal(n as nat),
    decreases n,
{
    if n >= 10 {
        push_decimal(out, n / 10);
    }
    let d = (n % 10) as u8;
    push_char(out, (d + 48) as char);
    proof {
        assert(digit_char((n % 10) as nat) == (d + 48) as char);
        if n >= 10 {
            assert(final(out)@ =~= old(out)@ + decimal(n as nat));
        } else {
            assert(final(out)@ =~= old(out)@ + decimal(n as nat));
        }
    }
}

} // verus!
