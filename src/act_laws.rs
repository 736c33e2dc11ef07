use vstd::prelude::*;
use vstd::arithmetic::div_mod::{lemma_fundamental_div_mod, lemma_fundamental_div_mod_converse};

use crate::act::{
    act_lines, act_text, empty_grid, entity_text, grid_height, join_lines, marker_line,
    metadata_lines, parse_act, parse_act_lines, parse_entity, parse_header, parse_record,
    parse_size, place_records, read_entities, record_count, record_lines, record_text,
    tile_records, words_text, ActError, ActHeader, ActView, EntityView,
};
use crate::text::{
    decimal, ends_with_cr, find_first, is_plain_line, is_word, lemma_decimal, lemma_find_first_at,
    lemma_find_first_bounds, lemma_lines_without_newline, lemma_split_lines_cons,
    lemma_split_tokens_cons, lemma_split_tokens_single, lemma_tokens_are_words, no_char,
    split_lines, split_tokens, usize_value,
};

verus! {

/// Every word of the entity is a word.
pub open spec fn entity_ok(e: EntityView) -> bool {
    &&& is_word(e.x)
    &&& is_word(e.y)
    &&& is_word(e.kind)
    &&& forall|i: int| 0 <= i < e.flags.len() ==> is_word(#[trigger] e.flags[i])
}

/// Every filled cell of the grid sits at a pixel position that a `usize`
/// holds.
pub open spec fn cells_fit(tiles: Seq<Option<(usize, u32)>>, width: nat) -> bool {
    forall|j: int|
        0 <= j < tiles.len() && (#[trigger] tiles[j]) is Some ==> (j % (width as int)) * 128
            <= usize::MAX && (j / (width as int)) * 128 <= usize::MAX
}

/// The first two words of a tile record, read as its pixel position.
pub open spec fn record_position(line: Seq<char>) -> Option<(usize, usize)> {
    let t = split_tokens(line);
    if t.len() >= 2 && usize_value(t[0]) is Some && usize_value(t[1]) is Some {
        Some((usize_value(t[0])->0, usize_value(t[1])->0))
    } else {
        None
    }
}

proof fn lemma_split_join(ls: Seq<Seq<char>>)
    requires
        forall|i: int| 0 <= i < ls.len() ==> is_plain_line(#[trigger] ls[i]),
    ensures
        split_lines(join_lines(ls)) == ls,
    decreases ls.len(),
{
    if ls.len() == 0 {
        assert(join_lines(ls) =~= Seq::<char>::empty());
        assert(split_lines(Seq::<char>::empty()) =~= ls);
    } else {
        let rest = ls.drop_first();
        assert forall|i: int| 0 <= i < rest.len() implies is_plain_line(#[trigger] rest[i]) by {
            assert(rest[i] == ls[i + 1]);
        }
        lemma_split_join(rest);
        assert(is_plain_line(ls[0]));
        lemma_split_lines_cons(ls[0], join_lines(rest));
        assert(ls =~= seq![ls[0]] + rest);
    }
}

proof fn lemma_words_round(ws: Seq<Seq<char>>)
    requires
        forall|i: int| 0 <= i < ws.len() ==> is_word(#[trigger] ws[i]),
    ensures
        split_tokens(words_text(ws)) == ws,
        no_char(words_text(ws), '\n'),
        ws.len() > 0 ==> words_text(ws).last() == ' ',
    decreases ws.len(),
{
    if ws.len() == 0 {
        assert(words_text(ws) =~= Seq::<char>::empty());
        assert(split_tokens(Seq::<char>::empty()) =~= ws);
    } else {
        let rest = ws.drop_first();
        assert forall|i: int| 0 <= i < rest.len() implies is_word(#[trigger] rest[i]) by {
            assert(rest[i] == ws[i + 1]);
        }
        lemma_words_round(rest);
        assert(is_word(ws[0]));
        lemma_split_tokens_cons(ws[0], words_text(rest));
        assert(ws =~= seq![ws[0]] + rest);
        let t = words_text(ws);
        assert(t == ws[0] + seq![' '] + words_text(rest));
        assert forall|k: int| 0 <= k < t.len() implies t[k] != '\n' by {
            if k < ws[0].len() {
                assert(t[k] == ws[0][k]);
            } else if k > ws[0].len() {
                assert(t[k] == words_text(rest)[k - ws[0].len() - 1]);
            }
        }
        if rest.len() == 0 {
            assert(words_text(rest) =~= Seq::<char>::empty());
        }
    }
}

proof fn lemma_entity_round(e: EntityView)
    requires
        entity_ok(e),
    ensures
        parse_entity(entity_text(e)) == Ok::<EntityView, ActError>(e),
        is_plain_line(entity_text(e)),
        entity_text(e) != marker_line(),
{
    let ws = seq![e.x, e.y, e.kind] + e.flags;
    assert forall|i: int| 0 <= i < ws.len() implies is_word(#[trigger] ws[i]) by {
        if i >= 3 {
            assert(ws[i] == e.flags[i - 3]);
        }
    }
    lemma_words_round(ws);
    assert(ws.subrange(3, ws.len() as int) =~= e.flags);
    let t = entity_text(e);
    assert(t.last() == ' ');
    reveal_strlit("E");
    assert(marker_line().last() == 'E');
}

proof fn lemma_read_entities_ok(lines: Seq<Seq<char>>, acc: Seq<EntityView>)
    requires
        forall|i: int| 0 <= i < lines.len() ==> no_char(#[trigger] lines[i], '\n'),
        forall|i: int| 0 <= i < acc.len() ==> entity_ok(#[trigger] acc[i]),
    ensures
        read_entities(lines, acc) matches Ok(v) ==> forall|i: int|
            0 <= i < v.len() ==> entity_ok(#[trigger] v[i]),
    decreases lines.len(),
{
    if lines.len() > 0 {
        if let Ok(v) = parse_entity(lines[0]) {
            lemma_tokens_are_words(lines[0]);
            let t = split_tokens(lines[0]);
            assert(is_word(t[0]) && is_word(t[1]) && is_word(t[2]));
            assert forall|i: int| 0 <= i < v.flags.len() implies is_word(#[trigger] v.flags[i]) by {
                assert(v.flags[i] == t[i + 3]);
            }
            let rest = lines.drop_first();
            assert forall|i: int| 0 <= i < rest.len() implies no_char(#[trigger] rest[i], '\n') by {
                assert(rest[i] == lines[i + 1]);
            }
            let acc2 = acc.push(v);
            assert forall|i: int| 0 <= i < acc2.len() implies entity_ok(#[trigger] acc2[i]) by {
                if i < acc.len() {
                    assert(acc2[i] == acc[i]);
                }
            }
            lemma_read_entities_ok(rest, acc2);
        }
    }
}

proof fn lemma_read_entities_round(ents: Seq<EntityView>, acc: Seq<EntityView>)
    requires
        forall|i: int| 0 <= i < ents.len() ==> entity_ok(#[trigger] ents[i]),
    ensures
        read_entities(ents.map_values(|e: EntityView| entity_text(e)), acc) == Ok::<
            Seq<EntityView>,
            ActError,
        >(acc + ents),
    decreases ents.len(),
{
    let lines = ents.map_values(|e: EntityView| entity_text(e));
    if ents.len() == 0 {
        assert(acc + ents =~= acc);
    } else {
        assert(entity_ok(ents[0]));
        lemma_entity_round(ents[0]);
        let rest = ents.drop_first();
        assert forall|i: int| 0 <= i < rest.len() implies entity_ok(#[trigger] rest[i]) by {
            assert(rest[i] == ents[i + 1]);
        }
        lemma_read_entities_round(rest, acc.push(ents[0]));
        assert(lines.drop_first() =~= rest.map_values(|e: EntityView| entity_text(e)));
        assert(acc.push(ents[0]) + rest =~= acc + ents);
    }
}

/// The grid that placing tile records builds keeps its size and puts cells
/// only where a pixel position can name them.
proof fn lemma_place_fits(
    records: Seq<Seq<char>>,
    width: nat,
    height: nat,
    grid: Seq<Option<(usize, u32)>>,
)
    requires
        grid.len() == width * height,
        cells_fit(grid, width),
    ensures
        place_records(records, width, height, grid) matches Ok(g) ==> g.len() == width * height
            && cells_fit(g, width),
    decreases records.len(),
{
    if records.len() > 0 {
        if let Ok(r) = parse_record(records[0], width, height) {
            let t = split_tokens(records[0]);
            let x = usize_value(t[0])->0 as int;
            let y = usize_value(t[1])->0 as int;
            let bx = x / 128;
            let by = y / 128;
            assert(r.0 == bx + by * width);
            assert(0 <= bx < width && 0 <= by < height);
            lemma_fundamental_div_mod_converse(r.0, width as int, by, bx);
            assert(bx * 128 <= x && by * 128 <= y) by {
                lemma_fundamental_div_mod(x, 128);
                lemma_fundamental_div_mod(y, 128);
            }
            assert(r.0 < width * height) by (nonlinear_arith)
                requires
                    r.0 == bx + by * width,
                    0 <= bx < width,
                    0 <= by < height,
            ;
            let g2 = grid.update(r.0, Some(r.1));
            assert forall|j: int|
                0 <= j < g2.len() && (#[trigger] g2[j]) is Some implies (j % (width as int)) * 128
                <= usize::MAX && (j / (width as int)) * 128 <= usize::MAX by {
                if j != r.0 {
                    assert(g2[j] == grid[j]);
                }
            }
            lemma_place_fits(records.drop_first(), width, height, g2);
        }
    }
}

proof fn lemma_record_lines_len(tiles: Seq<Option<(usize, u32)>>, width: nat, i: int)
    requires
        0 <= i <= tiles.len(),
    ensures
        record_lines(tiles, width, i).len() <= tiles.len() - i,
    decreases tiles.len() - i,
{
    if width != 0 && i < tiles.len() {
        lemma_record_lines_len(tiles, width, i + 1);
    }
}

proof fn lemma_record_lines_plain(tiles: Seq<Option<(usize, u32)>>, width: nat, i: int)
    requires
        0 <= i <= tiles.len(),
    ensures
        forall|k: int|
            0 <= k < record_lines(tiles, width, i).len() ==> is_plain_line(
                #[trigger] record_lines(tiles, width, i)[k],
            ),
    decreases tiles.len() - i,
{
    if width != 0 && i < tiles.len() {
        lemma_record_lines_plain(tiles, width, i + 1);
        if let Some(c) = tiles[i] {
            let rt = record_text(i, width, c);
            lemma_record_text_plain(i, width, c);
            let rest = record_lines(tiles, width, i + 1);
            assert(record_lines(tiles, width, i) == seq![rt] + rest);
            assert forall|k: int|
                0 <= k < record_lines(tiles, width, i).len() implies is_plain_line(
                #[trigger] record_lines(tiles, width, i)[k],
            ) by {
                if k > 0 {
                    assert(record_lines(tiles, width, i)[k] == rest[k - 1]);
                }
            }
        }
    }
}

/// The four numbers of a record, as one sequence with its separators grouped
/// to the right.
proof fn lemma_record_text_shape(i: int, width: nat, c: (usize, u32))
    requires
        width > 0,
    ensures
        record_text(i, width, c) == decimal(((i % (width as int)) * 128) as nat) + seq![' '] + (
        decimal(((i / (width as int)) * 128) as nat) + seq![' '] + (decimal(c.0 as nat) + seq![
            ' ',
        ] + decimal(c.1 as nat))),
{
    assert(record_text(i, width, c) =~= decimal(((i % (width as int)) * 128) as nat) + seq![' ']
        + (decimal(((i / (width as int)) * 128) as nat) + seq![' '] + (decimal(c.0 as nat)
        + seq![' '] + decimal(c.1 as nat))));
}

proof fn lemma_record_text_plain(i: int, width: nat, c: (usize, u32))
    ensures
        is_plain_line(record_text(i, width, c)),
{
    let a = decimal(((i % (width as int)) * 128) as nat);
    let b = decimal(((i / (width as int)) * 128) as nat);
    let d = decimal(c.0 as nat);
    let f = decimal(c.1 as nat);
    lemma_decimal(((i % (width as int)) * 128) as nat);
    lemma_decimal(((i / (width as int)) * 128) as nat);
    lemma_decimal(c.0 as nat);
    lemma_decimal(c.1 as nat);
    let t = record_text(i, width, c);
    assert(t == a + seq![' '] + b + seq![' '] + d + seq![' '] + f);
    assert forall|k: int| 0 <= k < t.len() implies t[k] != '\n' by {
        let n1 = a.len() as int;
        let n2 = n1 + 1 + b.len();
        let n3 = n2 + 1 + d.len();
        if k < n1 {
            assert(t[k] == a[k]);
        } else if n1 < k < n2 {
            assert(t[k] == b[k - n1 - 1]);
        } else if n2 < k < n3 {
            assert(t[k] == d[k - n2 - 1]);
        } else if n3 < k {
            assert(t[k] == f[k - n3 - 1]);
        }
    }
    assert(t.last() == f.last());
}

/// A tile record reads back as the cell it was written for.
proof fn lemma_record_round(i: int, width: nat, height: nat, c: (usize, u32))
    requires
        width > 0,
        0 <= i < width * height,
        (i % (width as int)) * 128 <= usize::MAX,
        (i / (width as int)) * 128 <= usize::MAX,
    ensures
        parse_record(record_text(i, width, c), width, height) == Ok::<
            (int, (usize, u32)),
            ActError,
        >((i, c)),
{
    let w = width as int;
    let bx = i % w;
    let by = i / w;
    lemma_fundamental_div_mod(i, w);
    assert(0 <= bx < w);
    assert(0 <= by < height) by (nonlinear_arith)
        requires
            i == w * by + bx,
            0 <= bx < w,
            0 <= i < w * height,
    ;
    let x = (bx * 128) as nat;
    let y = (by * 128) as nat;
    lemma_decimal(x);
    lemma_decimal(y);
    lemma_decimal(c.0 as nat);
    lemma_decimal(c.1 as nat);
    lemma_record_text_shape(i, width, c);
    let a = decimal(x);
    let b = decimal(y);
    let d = decimal(c.0 as nat);
    let f = decimal(c.1 as nat);
    lemma_split_tokens_single(f);
    lemma_split_tokens_cons(d, f);
    lemma_split_tokens_cons(b, d + seq![' '] + f);
    lemma_split_tokens_cons(a, b + seq![' '] + (d + seq![' '] + f));
    let t = split_tokens(record_text(i, width, c));
    assert(t =~= seq![a, b, d, f]);
    assert(x % 128 == 0 && x / 128 == bx) by {
        lemma_fundamental_div_mod_converse(x as int, 128, bx, 0);
    }
    assert(y % 128 == 0 && y / 128 == by) by {
        lemma_fundamental_div_mod_converse(y as int, 128, by, 0);
    }
    assert(bx + by * w == i) by (nonlinear_arith)
        requires
            i == w * by + bx,
    ;
}

/// Placing the records written for a grid, over cells that are empty from
/// `i` on and already hold the grid before `i`, gives the grid.
proof fn lemma_place_round(
    tiles: Seq<Option<(usize, u32)>>,
    width: nat,
    height: nat,
    grid: Seq<Option<(usize, u32)>>,
    i: int,
)
    requires
        width > 0,
        tiles.len() == width * height,
        cells_fit(tiles, width),
        0 <= i <= tiles.len(),
        grid.len() == tiles.len(),
        forall|j: int| 0 <= j < i ==> grid[j] == tiles[j],
        forall|j: int| i <= j < grid.len() ==> grid[j] is None,
    ensures
        place_records(record_lines(tiles, width, i), width, height, grid) == Ok::<
            Seq<Option<(usize, u32)>>,
            ActError,
        >(tiles),
    decreases tiles.len() - i,
{
    if i == tiles.len() {
        assert(grid =~= tiles);
    } else {
        let rest = record_lines(tiles, width, i + 1);
        match tiles[i] {
            None => {
                lemma_place_round(tiles, width, height, grid, i + 1);
            },
            Some(c) => {
                let rt = record_text(i, width, c);
                let lines = record_lines(tiles, width, i);
                assert(lines == seq![rt] + rest);
                assert(lines[0] == rt);
                assert(lines.drop_first() =~= rest);
                assert(tiles[i] is Some);
                lemma_record_round(i, width, height, c);
                let g2 = grid.update(i, Some(c));
                assert forall|j: int| 0 <= j < i + 1 implies g2[j] == tiles[j] by {
                    if j < i {
                        assert(g2[j] == grid[j]);
                    }
                }
                lemma_place_round(tiles, width, height, g2, i + 1);
            },
        }
    }
}

/// A level that the file format can carry exactly: plain version and name
/// lines, entities made of words, and a full grid of `height` rows whose
/// filled cells sit at pixel positions that a `usize` holds.
pub open spec fn level_ok(a: ActView, height: nat) -> bool {
    &&& is_plain_line(a.version)
    &&& is_plain_line(a.name)
    &&& forall|i: int| 0 <= i < a.entities.len() ==> entity_ok(#[trigger] a.entities[i])
    &&& a.tiles.len() == a.width * height
    &&& a.width <= usize::MAX
    &&& a.width * height <= usize::MAX
    &&& cells_fit(a.tiles, a.width)
}

/// A level read from a file is one that the format carries exactly, but for
/// a version or name line that ends in a carriage return.
proof fn lemma_parsed_level_ok(s: Seq<char>)
    requires
        parse_act(s) is Ok,
        !ends_with_cr(parse_act(s)->Ok_0.version),
        !ends_with_cr(parse_act(s)->Ok_0.name),
    ensures
        level_ok(parse_act(s)->Ok_0, parse_header(split_lines(s))->Ok_0.height),
{
    let ls = split_lines(s);
    let h = parse_header(ls)->Ok_0;
    let a = parse_act(s)->Ok_0;
    let e = 2 + find_first(ls.subrange(2, ls.len() as int), marker_line());
    lemma_find_first_bounds(ls.subrange(2, ls.len() as int), marker_line());
    lemma_lines_without_newline(s);
    let entity_lines = ls.subrange(2, e);
    assert forall|i: int| 0 <= i < entity_lines.len() implies no_char(
        #[trigger] entity_lines[i],
        '\n',
    ) by {
        assert(entity_lines[i] == ls[i + 2]);
    }
    lemma_read_entities_ok(entity_lines, seq![]);
    assert(a.entities == h.entities);
    assert(a.version == ls[0] && a.name == ls[1]);
    let w = a.width;
    let hh = h.height;
    let n = record_count(ls, h);
    let records = ls.subrange(h.records_start, h.records_start + n);
    assert(cells_fit(empty_grid(w * hh), w));
    lemma_place_fits(records, w, hh, empty_grid(w * hh));
}

/// The lines written for a level are plain, so they read back as written.
proof fn lemma_written_lines(a: ActView, height: nat)
    requires
        level_ok(a, height),
    ensures
        split_lines(act_text(a)) == act_lines(a),
        act_lines(a) == seq![a.version, a.name] + a.entities.map_values(
            |e: EntityView| entity_text(e),
        ) + seq![marker_line()] + metadata_lines() + seq![
            decimal(record_lines(a.tiles, a.width, 0).len()),
            decimal(a.width) + seq![' '] + decimal(grid_height(a)),
        ] + record_lines(a.tiles, a.width, 0),
{
    let m = act_lines(a);
    let recs = record_lines(a.tiles, a.width, 0);
    lemma_record_lines_plain(a.tiles, a.width, 0);
    let count = recs.len();
    let gh = grid_height(a);
    lemma_decimal(count);
    lemma_decimal(a.width);
    lemma_decimal(gh);
    let size_line = decimal(a.width) + seq![' '] + decimal(gh);
    let ent_lines = a.entities.map_values(|x: EntityView| entity_text(x));
    let ne = a.entities.len() as int;
    assert forall|i: int| 0 <= i < ne implies is_plain_line(#[trigger] ent_lines[i]) by {
        lemma_entity_round(a.entities[i]);
    }
    reveal_strlit("E");
    reveal_strlit("NORMAL");
    reveal_strlit("EmeraldHillZone.png");
    reveal_strlit("EmeraldHillZone/Block");
    reveal_strlit("EmeraldHillZone/Background/");
    assert(is_plain_line(size_line)) by {
        let d1 = decimal(a.width);
        let d2 = decimal(gh);
        assert forall|k: int| 0 <= k < size_line.len() implies size_line[k] != '\n' by {
            if k < d1.len() {
                assert(size_line[k] == d1[k]);
            } else if k > d1.len() {
                assert(size_line[k] == d2[k - d1.len() - 1]);
            }
        }
        assert(size_line.last() == d2.last());
    }
    assert(m =~= seq![a.version, a.name] + ent_lines + seq![marker_line()] + metadata_lines()
        + seq![decimal(count), size_line] + recs);
    assert forall|i: int| 0 <= i < m.len() implies is_plain_line(#[trigger] m[i]) by {
        if i == 0 {
            assert(m[i] == a.version);
        } else if i == 1 {
            assert(m[i] == a.name);
        } else if i < 2 + ne {
            assert(m[i] == ent_lines[i - 2]);
        } else if i < 7 + ne {
            assert(m[i] == (seq![marker_line()] + metadata_lines())[i - 2 - ne]);
        } else if i == 7 + ne {
            assert(m[i] == decimal(count));
        } else if i == 8 + ne {
            assert(m[i] == size_line);
        } else {
            assert(m[i] == recs[i - 9 - ne]);
        }
    }
    lemma_split_join(m);
}

/// The header written for a level reads back as that level's header.
#[verifier::rlimit(40)]
proof fn lemma_written_header(a: ActView, height: nat)
    requires
        level_ok(a, height),
    ensures
        parse_header(act_lines(a)) == Ok::<ActHeader, ActError>(
            ActHeader {
                version: a.version,
                name: a.name,
                entities: a.entities,
                count: record_lines(a.tiles, a.width, 0).len(),
                width: a.width,
                height: grid_height(a),
                records_start: a.entities.len() as int + 9,
            },
        ),
{
    lemma_written_lines(a, height);
    let m = act_lines(a);
    let recs = record_lines(a.tiles, a.width, 0);
    lemma_record_lines_len(a.tiles, a.width, 0);
    let count = recs.len();
    let w = a.width;
    let gh = grid_height(a);
    lemma_decimal(count);
    lemma_decimal(w);
    lemma_decimal(gh);
    let size_line = decimal(w) + seq![' '] + decimal(gh);
    let ents = a.entities;
    let ent_lines = ents.map_values(|x: EntityView| entity_text(x));
    let ne = ents.len() as int;
    assert forall|i: int| 0 <= i < ne implies #[trigger] ent_lines[i] != marker_line() by {
        lemma_entity_round(ents[i]);
    }
    let e2 = 2 + ne;
    let body = m.subrange(2, m.len() as int);
    assert forall|k: int| 0 <= k < ne implies body[k] != marker_line() by {
        assert(body[k] == ent_lines[k]);
    }
    assert(body[ne] == marker_line());
    lemma_find_first_at(body, marker_line(), ne);
    assert(m.subrange(2, e2) =~= ent_lines);
    lemma_read_entities_round(ents, seq![]);
    assert(Seq::<EntityView>::empty() + ents =~= ents);
    assert(m.subrange(e2 + 1, e2 + 5) =~= metadata_lines());
    assert(m[e2 + 5] == decimal(count));
    assert(usize_value(m[e2 + 5]) == Some(count as usize));
    lemma_split_tokens_single(decimal(gh));
    lemma_split_tokens_cons(decimal(w), decimal(gh));
    assert(split_tokens(size_line) =~= seq![decimal(w), decimal(gh)]);
    assert(m[e2 + 6] == size_line);
    if w > 0 {
        assert(a.tiles.len() == height * w) by (nonlinear_arith)
            requires
                a.tiles.len() == w * height,
        ;
        lemma_fundamental_div_mod_converse(a.tiles.len() as int, w as int, height as int, 0);
        assert(gh == height);
        assert(gh <= usize::MAX) by (nonlinear_arith)
            requires
                w > 0,
                w * gh <= usize::MAX,
        ;
    } else {
        assert(gh == 0);
    }
    assert(w * gh <= usize::MAX);
    assert(parse_size(size_line) == Ok::<(usize, usize), ActError>((w as usize, gh as usize)));
}

/// A level that the format carries exactly reads back from what is written
/// for it.
pub proof fn lemma_level_reads_back(a: ActView, height: nat)
    requires
        level_ok(a, height),
    ensures
        parse_act(act_text(a)) == Ok::<ActView, ActError>(a),
{
    lemma_written_lines(a, height);
    lemma_written_header(a, height);
    let m = act_lines(a);
    let h2 = parse_header(m)->Ok_0;
    let recs = record_lines(a.tiles, a.width, 0);
    let count = recs.len();
    let w = a.width;
    let gh = grid_height(a);
    let ne = a.entities.len() as int;
    assert(m.len() == ne + 9 + count);
    assert(record_count(m, h2) == count);
    assert(m.subrange(ne + 9, ne + 9 + count) =~= recs);
    if w > 0 {
        assert(a.tiles.len() == height * w) by (nonlinear_arith)
            requires
                a.tiles.len() == w * height,
        ;
        lemma_fundamental_div_mod_converse(a.tiles.len() as int, w as int, height as int, 0);
        assert(gh == height);
        lemma_place_round(a.tiles, w, gh, empty_grid(w * gh), 0);
    } else {
        assert(a.tiles.len() == 0) by (nonlinear_arith)
            requires
                a.tiles.len() == w * height,
                w == 0,
        ;
        assert(recs =~= Seq::<Seq<char>>::empty());
        assert(empty_grid(w * gh) =~= a.tiles);
    }
    assert(parse_act_lines(m) == Ok::<ActView, ActError>(a));
}

/// Writing a level read from a file and reading it back gives the same
/// level. A version or name line that ends in a carriage return (written as
/// two carriage returns before the line feed) is left out: it cannot be
/// written back so that it reads the same.
pub proof fn lemma_round_trip(s: Seq<char>)
    requires
        parse_act(s) is Ok,
        !ends_with_cr(parse_act(s)->Ok_0.version),
        !ends_with_cr(parse_act(s)->Ok_0.name),
    ensures
        parse_act(act_text(parse_act(s)->Ok_0)) == parse_act(s),
{
    lemma_parsed_level_ok(s);
    lemma_level_reads_back(parse_act(s)->Ok_0, parse_header(split_lines(s))->Ok_0.height);
}

proof fn lemma_place_rejects(
    records: Seq<Seq<char>>,
    width: nat,
    height: nat,
    grid: Seq<Option<(usize, u32)>>,
    k: int,
)
    requires
        0 <= k < records.len(),
        parse_record(records[k], width, height) is Err,
    ensures
        place_records(records, width, height, grid) is Err,
    decreases records.len(),
{
    if k > 0 {
        if let Ok(r) = parse_record(records[0], width, height) {
            assert(records.drop_first()[k - 1] == records[k]);
            lemma_place_rejects(records.drop_first(), width, height, grid.update(r.0, Some(r.1)), k - 1);
        }
    }
}

/// A record that fails to read makes the whole file fail to read.
proof fn lemma_bad_record_rejects(s: Seq<char>, k: int)
    requires
        0 <= k < tile_records(split_lines(s)).len(),
        parse_record(
            tile_records(split_lines(s))[k],
            parse_header(split_lines(s))->Ok_0.width,
            parse_header(split_lines(s))->Ok_0.height,
        ) is Err,
    ensures
        parse_act(s) is Err,
{
    let ls = split_lines(s);
    let h = parse_header(ls)->Ok_0;
    assert(parse_header(ls) is Ok);
    lemma_place_rejects(tile_records(ls), h.width, h.height, empty_grid(h.width * h.height), k);
}

/// A level file with a tile record whose pixel position is not a multiple
/// of the block size on either axis does not parse.
pub proof fn lemma_misaligned_record_rejected(s: Seq<char>, k: int)
    requires
        0 <= k < tile_records(split_lines(s)).len(),
        record_position(tile_records(split_lines(s))[k]) matches Some(p) && (p.0 % 128 != 0 || p.1
            % 128 != 0),
    ensures
        parse_act(s) is Err,
{
    let ls = split_lines(s);
    assert(parse_header(ls) is Ok);
    lemma_bad_record_rejects(s, k);
}

/// A level file with a tile record whose block position, its pixel
/// position divided by the block size, lies outside the grid that the file
/// declares does not parse.
pub proof fn lemma_out_of_range_record_rejected(s: Seq<char>, k: int)
    requires
        0 <= k < tile_records(split_lines(s)).len(),
        record_position(tile_records(split_lines(s))[k]) matches Some(p) && (p.0 / 128
            >= parse_header(split_lines(s))->Ok_0.width || p.1 / 128 >= parse_header(
            split_lines(s),
        )->Ok_0.height),
    ensures
        parse_act(s) is Err,
{
    let ls = split_lines(s);
    assert(parse_header(ls) is Ok);
    lemma_bad_record_rejects(s, k);
}

} // verus!
