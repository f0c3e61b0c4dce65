//! What is written is read back: a map file written for a crate's nodes
//! reads back as the places of exactly those nodes.

use vstd::prelude::*;
use crate::text::{
    decimal, lemma_contains_concat, lemma_decimal_plain, lemma_parse_i64_decimal,
    lemma_parse_usize_decimal, lemma_split_on_append_line, lemma_split_on_join,
    lemma_split_on_no_sep, lemma_split_on_nonempty, lines_of, split_on,
};
use crate::crosscratemap::{
    CrossCrateMapItemView, DefId, JumpDef, NodeInfo, TextFilePos, fields_entry, i64_field,
    jdef_crate_name, jdef_line, jdef_tag, jumps_text, line_entry, line_readable, map_of_lines,
    map_text, map_text_readable, node_line, node_tag, nodes_text, tab, usize_field, wrapping_dec,
    wrapping_inc,
};

verus! {

/// Whether `s` can stand as a field: it holds no tab and no newline.
pub open spec fn plain_field(s: Seq<char>) -> bool {
    !s.contains('\t') && !s.contains('\n')
}

/// Whether `s` fits on one line: it holds no newline.
pub open spec fn one_line(s: Seq<char>) -> bool {
    !s.contains('\n')
}

/// Whether node `n` can be written so as to be read back.
pub open spec fn node_writable(n: NodeInfo) -> bool {
    match n.pos {
        Some(p) => plain_field(p.fname@) && one_line(n.kind@) && one_line(n.ident@),
        None => true,
    }
}

/// Whether the map file of crate `crate_name` can be written so as to be
/// read back: the crate name and file names are plain fields, kinds,
/// identifiers and linked crate names fit on one line, and, in the older
/// layout, the crate name is not one of the record tags.
pub open spec fn map_writable(
    crate_name: Seq<char>,
    nodes: Seq<NodeInfo>,
    jumps: Seq<JumpDef>,
    new_format: bool,
) -> bool {
    &&& plain_field(crate_name)
    &&& !new_format ==> crate_name != jdef_tag() && crate_name != node_tag()
    &&& forall|i: int| 0 <= i < nodes.len() ==> node_writable(#[trigger] nodes[i])
    &&& forall|i: int| 0 <= i < jumps.len() ==> one_line(jdef_crate_name(crate_name, #[trigger] jumps[i]))
}

/// How many of `nodes` have a known start.
pub open spec fn known_starts(nodes: Seq<NodeInfo>) -> nat
    decreases nodes.len(),
{
    if nodes.len() == 0 {
        0
    } else {
        known_starts(nodes.drop_last()) + if nodes.last().pos is Some {
            1nat
        } else {
            0nat
        }
    }
}

/// The entry for node `n`, which starts at `p`, in the map of crate
/// `crate_num`.
pub open spec fn node_entry(n: NodeInfo, p: TextFilePos, crate_num: i64) -> (DefId, CrossCrateMapItemView) {
    (
        DefId { krate: crate_num as u32, node: n.node_id },
        CrossCrateMapItemView { fname: p.fname@, line: p.line, col: p.col, len: n.len },
    )
}

/// The map of crate `crate_num` that holds the place of each node of
/// `nodes` whose start is known, where a later node wins over an earlier one
/// with the same id.
pub open spec fn nodes_map(nodes: Seq<NodeInfo>, crate_num: i64) -> Map<DefId, CrossCrateMapItemView>
    decreases nodes.len(),
{
    if nodes.len() == 0 {
        Map::empty()
    } else {
        let m = nodes_map(nodes.drop_last(), crate_num);
        match nodes.last().pos {
            Some(p) => {
                let (id, item) = node_entry(nodes.last(), p, crate_num);
                m.insert(id, item)
            },
            None => m,
        }
    }
}

proof fn lemma_split_fields(x: Seq<char>, p: Seq<char>)
    ensures
        split_on(x + tab() + p, '\t') == split_on(x, '\t') + split_on(p, '\t'),
{
    assert(x + tab() + p =~= x.push('\t') + p);
    lemma_split_on_join(x, p, '\t');
}

proof fn lemma_field(p: Seq<char>)
    requires
        !p.contains('\t'),
    ensures
        split_on(p, '\t') == seq![p],
{
    lemma_split_on_no_sep(p, '\t');
}

/// The record of a node reads back as that node's entry, and can be read.
pub proof fn lemma_node_line_reads_back(
    crate_name: Seq<char>,
    n: NodeInfo,
    p: TextFilePos,
    new_format: bool,
    crate_num: i64,
)
    requires
        plain_field(crate_name),
        plain_field(p.fname@),
        !new_format ==> crate_name != jdef_tag() && crate_name != node_tag(),
    ensures
        line_readable(node_line(crate_name, n, p, new_format)),
        line_entry(node_line(crate_name, n, p, new_format), crate_num) == Some(
            node_entry(n, p, crate_num),
        ),
{
    let d_node = decimal(n.node_id as nat);
    let d_parent = decimal(n.parent_id as nat);
    let d_line = decimal(wrapping_inc(p.line) as nat);
    let d_col = decimal(p.col as nat);
    let d_len = decimal(n.len as nat);
    lemma_decimal_plain(n.node_id as nat);
    lemma_decimal_plain(n.parent_id as nat);
    lemma_decimal_plain(wrapping_inc(p.line) as nat);
    lemma_decimal_plain(p.col as nat);
    lemma_decimal_plain(n.len as nat);
    lemma_field(crate_name);
    lemma_field(p.fname@);
    lemma_field(d_node);
    lemma_field(d_parent);
    lemma_field(d_line);
    lemma_field(d_col);
    lemma_field(d_len);
    lemma_parse_i64_decimal(n.node_id as nat);
    lemma_parse_usize_decimal(wrapping_inc(p.line));
    lemma_parse_usize_decimal(p.col);
    lemma_parse_usize_decimal(n.len);
    lemma_split_on_nonempty(n.kind@, '\t');
    lemma_split_on_nonempty(n.ident@, '\t');
    let line = node_line(crate_name, n, p, new_format);
    let f = split_on(line, '\t');
    if new_format {
        assert(!node_tag().contains('\t')) by {
            assert(node_tag()[0] != '\t' && node_tag()[1] != '\t' && node_tag()[2] != '\t'
                && node_tag()[3] != '\t');
        }
        lemma_field(node_tag());
        let x1 = node_tag() + tab() + crate_name;
        let x2 = x1 + tab() + d_node;
        let x3 = x2 + tab() + d_parent;
        let x4 = x3 + tab() + p.fname@;
        let x5 = x4 + tab() + d_line;
        let x6 = x5 + tab() + d_col;
        let x7 = x6 + tab() + d_len;
        let x8 = x7 + tab() + n.kind@;
        lemma_split_fields(node_tag(), crate_name);
        lemma_split_fields(x1, d_node);
        lemma_split_fields(x2, d_parent);
        lemma_split_fields(x3, p.fname@);
        lemma_split_fields(x4, d_line);
        lemma_split_fields(x5, d_col);
        lemma_split_fields(x6, d_len);
        lemma_split_fields(x7, n.kind@);
        lemma_split_fields(x8, n.ident@);
        let head = seq![node_tag(), crate_name, d_node, d_parent, p.fname@, d_line, d_col, d_len];
        assert(split_on(x7, '\t') =~= head);
        assert(f == head + split_on(n.kind@, '\t') + split_on(n.ident@, '\t'));
        assert(f[0] == node_tag());
        assert(f[2] == d_node);
        assert(f[4] == p.fname@);
        assert(f[5] == d_line);
        assert(f[6] == d_col);
        assert(f[7] == d_len);
        assert(node_tag() != jdef_tag()) by {
            assert(node_tag()[0] != jdef_tag()[0]);
        }
        assert(i64_field(f[2]) == n.node_id as i64);
        assert(wrapping_dec(usize_field(f[5])) == p.line);
    } else {
        let x1 = crate_name + tab() + d_node;
        let x2 = x1 + tab() + p.fname@;
        let x3 = x2 + tab() + d_line;
        let x4 = x3 + tab() + d_col;
        let x5 = x4 + tab() + d_len;
        let x6 = x5 + tab() + n.kind@;
        lemma_split_fields(crate_name, d_node);
        lemma_split_fields(x1, p.fname@);
        lemma_split_fields(x2, d_line);
        lemma_split_fields(x3, d_col);
        lemma_split_fields(x4, d_len);
        lemma_split_fields(x5, n.kind@);
        lemma_split_fields(x6, n.ident@);
        let head = seq![crate_name, d_node, p.fname@, d_line, d_col, d_len];
        assert(split_on(x5, '\t') =~= head);
        assert(f == head + split_on(n.kind@, '\t') + split_on(n.ident@, '\t'));
        assert(f[0] == crate_name);
        assert(f[1] == d_node);
        assert(f[2] == p.fname@);
        assert(f[3] == d_line);
        assert(f[4] == d_col);
        assert(f[5] == d_len);
        assert(i64_field(f[1]) == n.node_id as i64);
        assert(wrapping_dec(usize_field(f[3])) == p.line);
    }
}


/// A record fits on one line when its variable parts do.
proof fn lemma_node_line_one_line(crate_name: Seq<char>, n: NodeInfo, p: TextFilePos, new_format: bool)
    requires
        one_line(crate_name),
        node_writable(n),
        n.pos == Some(p),
    ensures
        one_line(node_line(crate_name, n, p, new_format)),
{
    broadcast use lemma_contains_concat;

    lemma_decimal_plain(n.node_id as nat);
    lemma_decimal_plain(n.parent_id as nat);
    lemma_decimal_plain(wrapping_inc(p.line) as nat);
    lemma_decimal_plain(p.col as nat);
    lemma_decimal_plain(n.len as nat);
    assert(!tab().contains('\n')) by {
        assert(tab()[0] != '\n');
    }
    assert(!node_tag().contains('\n')) by {
        assert(node_tag()[0] != '\n' && node_tag()[1] != '\n' && node_tag()[2] != '\n'
            && node_tag()[3] != '\n');
    }
}

/// The record of a link reads as no entry, and can be read; it fits on one
/// line when the crate name it holds does.
pub proof fn lemma_jdef_line_reads_as_nothing(crate_name: Seq<char>, j: JumpDef, crate_num: i64)
    ensures
        line_readable(jdef_line(crate_name, j)),
        line_entry(jdef_line(crate_name, j), crate_num) == None::<(DefId, CrossCrateMapItemView)>,
        one_line(crate_name) && one_line(jdef_crate_name(crate_name, j)) ==> one_line(
            jdef_line(crate_name, j),
        ),
{
    broadcast use lemma_contains_concat;

    let rest = decimal(j.node_id as nat) + tab() + jdef_crate_name(crate_name, j) + tab() + decimal(
        j.def.node as nat,
    );
    assert(jdef_line(crate_name, j) =~= jdef_tag() + tab() + rest);
    lemma_split_fields(jdef_tag(), rest);
    assert(!jdef_tag().contains('\t')) by {
        assert(jdef_tag()[0] != '\t' && jdef_tag()[1] != '\t' && jdef_tag()[2] != '\t'
            && jdef_tag()[3] != '\t');
    }
    lemma_field(jdef_tag());
    lemma_split_on_nonempty(rest, '\t');
    let f = split_on(jdef_line(crate_name, j), '\t');
    assert(f[0] == jdef_tag());
    assert(node_tag() != jdef_tag()) by {
        assert(node_tag()[0] != jdef_tag()[0]);
    }
    lemma_decimal_plain(j.node_id as nat);
    lemma_decimal_plain(j.def.node as nat);
    assert(!tab().contains('\n')) by {
        assert(tab()[0] != '\n');
    }
    assert(!jdef_tag().contains('\n')) by {
        assert(jdef_tag()[0] != '\n' && jdef_tag()[1] != '\n' && jdef_tag()[2] != '\n'
            && jdef_tag()[3] != '\n');
    }
}

/// The lines of the text of nodes `nodes` are the records of those nodes
/// that have a known start; they can all be read and build `nodes_map`.
proof fn lemma_nodes_text_lines(crate_name: Seq<char>, nodes: Seq<NodeInfo>, new_format: bool, crate_num: i64)
    requires
        plain_field(crate_name),
        !new_format ==> crate_name != jdef_tag() && crate_name != node_tag(),
        forall|i: int| 0 <= i < nodes.len() ==> node_writable(#[trigger] nodes[i]),
    ensures
        split_on(nodes_text(crate_name, nodes, new_format), '\n').last() == Seq::<char>::empty(),
        map_of_lines(split_on(nodes_text(crate_name, nodes, new_format), '\n').drop_last(), crate_num)
            == nodes_map(nodes, crate_num),
        forall|j: int|
            0 <= j < split_on(nodes_text(crate_name, nodes, new_format), '\n').drop_last().len()
                ==> line_readable(
                #[trigger] split_on(nodes_text(crate_name, nodes, new_format), '\n').drop_last()[j],
            ),
        split_on(nodes_text(crate_name, nodes, new_format), '\n').len() == known_starts(nodes) + 1,
    decreases nodes.len(),
{
    let t = nodes_text(crate_name, nodes, new_format);
    if nodes.len() == 0 {
        assert(t =~= Seq::<char>::empty());
        assert(split_on(t, '\n').drop_last() =~= Seq::<Seq<char>>::empty());
    } else {
        let init = nodes.drop_last();
        assert forall|i: int| 0 <= i < init.len() implies node_writable(#[trigger] init[i]) by {
            assert(init[i] == nodes[i]);
        }
        lemma_nodes_text_lines(crate_name, init, new_format, crate_num);
        let t0 = nodes_text(crate_name, init, new_format);
        let g0 = split_on(t0, '\n').drop_last();
        let n = nodes.last();
        assert(node_writable(nodes[nodes.len() - 1]));
        match n.pos {
            Some(p) => {
                let line = node_line(crate_name, n, p, new_format);
                lemma_node_line_one_line(crate_name, n, p, new_format);
                lemma_node_line_reads_back(crate_name, n, p, new_format, crate_num);
                lemma_split_on_append_line(t0, line);
                let g = split_on(t, '\n').drop_last();
                assert(g =~= g0.push(line));
                assert(g.drop_last() =~= g0);
                assert forall|j: int| 0 <= j < g.len() implies line_readable(#[trigger] g[j]) by {
                    if j < g0.len() {
                        assert(g[j] == g0[j]);
                    }
                }
            },
            None => {
                assert(t =~= t0);
            },
        }
    }
}

/// Adding the text of links to text that ends a line adds lines that can
/// be read and read as no entry.
proof fn lemma_jumps_text_lines(t: Seq<char>, crate_name: Seq<char>, jumps: Seq<JumpDef>, crate_num: i64)
    requires
        split_on(t, '\n').last() == Seq::<char>::empty(),
        one_line(crate_name),
        forall|i: int| 0 <= i < jumps.len() ==> one_line(jdef_crate_name(crate_name, #[trigger] jumps[i])),
    ensures
        split_on(t + jumps_text(crate_name, jumps), '\n').last() == Seq::<char>::empty(),
        map_of_lines(split_on(t + jumps_text(crate_name, jumps), '\n').drop_last(), crate_num)
            == map_of_lines(split_on(t, '\n').drop_last(), crate_num),
        split_on(t + jumps_text(crate_name, jumps), '\n').len() >= split_on(t, '\n').len(),
        forall|j: int|
            0 <= j < split_on(t, '\n').len() - 1 ==> #[trigger] split_on(
                t + jumps_text(crate_name, jumps),
                '\n',
            )[j] == split_on(t, '\n')[j],
        forall|j: int|
            split_on(t, '\n').len() - 1 <= j < split_on(t + jumps_text(crate_name, jumps), '\n').len()
                - 1 ==> line_readable(
                #[trigger] split_on(t + jumps_text(crate_name, jumps), '\n')[j],
            ),
        split_on(t + jumps_text(crate_name, jumps), '\n').len() == split_on(t, '\n').len()
            + jumps.len(),
        forall|k: int|
            0 <= k < jumps.len() ==> #[trigger] split_on(t + jumps_text(crate_name, jumps), '\n')[split_on(
                t,
                '\n',
            ).len() - 1 + k] == jdef_line(crate_name, jumps[k]),
    decreases jumps.len(),
{
    lemma_split_on_nonempty(t, '\n');
    if jumps.len() == 0 {
        assert(t + jumps_text(crate_name, jumps) =~= t);
    } else {
        let init = jumps.drop_last();
        assert forall|i: int| 0 <= i < init.len() implies one_line(
            jdef_crate_name(crate_name, #[trigger] init[i]),
        ) by {
            assert(init[i] == jumps[i]);
        }
        lemma_jumps_text_lines(t, crate_name, init, crate_num);
        let t0 = t + jumps_text(crate_name, init);
        let j = jumps.last();
        assert(one_line(jdef_crate_name(crate_name, jumps[jumps.len() - 1])));
        let line = jdef_line(crate_name, j);
        lemma_jdef_line_reads_as_nothing(crate_name, j, crate_num);
        assert(t + jumps_text(crate_name, jumps) =~= t0 + line.push('\n'));
        lemma_split_on_append_line(t0, line);
        lemma_split_on_nonempty(t0, '\n');
        let g0 = split_on(t0, '\n').drop_last();
        let g = split_on(t0 + line.push('\n'), '\n').drop_last();
        assert(g =~= g0.push(line));
        assert(g.drop_last() =~= g0);
    }
}

/// A map file written for crate `crate_name` reads back, as the map of any
/// crate number, as the places of exactly the written nodes whose start is
/// known (a later node winning over an earlier one with the same id); the
/// link records add nothing to it, and every line of it can be read.
pub proof fn lemma_written_map_reads_back(
    crate_name: Seq<char>,
    nodes: Seq<NodeInfo>,
    jumps: Seq<JumpDef>,
    new_format: bool,
    crate_num: i64,
)
    requires
        map_writable(crate_name, nodes, jumps, new_format),
    ensures
        map_text_readable(map_text(crate_name, nodes, jumps, new_format)),
        map_of_lines(lines_of(map_text(crate_name, nodes, jumps, new_format)), crate_num)
            == nodes_map(nodes, crate_num),
{
    let t = nodes_text(crate_name, nodes, new_format);
    lemma_nodes_text_lines(crate_name, nodes, new_format, crate_num);
    lemma_jumps_text_lines(t, crate_name, jumps, crate_num);
    let whole = map_text(crate_name, nodes, jumps, new_format);
    assert(whole == t + jumps_text(crate_name, jumps));
    let lines = lines_of(whole);
    assert(lines == split_on(whole, '\n').drop_last());
    let g0 = split_on(t, '\n').drop_last();
    let pw = split_on(whole, '\n');
    let pt = split_on(t, '\n');
    lemma_split_on_nonempty(t, '\n');
    assert(lines.len() == pw.len() - 1);
    assert forall|j: int| 0 <= j < lines.len() implies line_readable(#[trigger] lines[j]) by {
        assert(lines[j] == pw[j]);
        if j < pt.len() - 1 {
            assert(pw[j] == pt[j]);
            assert(g0[j] == pt[j]);
            assert(line_readable(g0[j]));
        } else {
            assert(line_readable(pw[j]));
        }
    }
}


/// The fields of the record of link `j`, when the crate name it holds is a
/// plain field.
proof fn lemma_jdef_line_fields(crate_name: Seq<char>, j: JumpDef)
    requires
        plain_field(jdef_crate_name(crate_name, j)),
    ensures
        split_on(jdef_line(crate_name, j), '\t') == seq![
            jdef_tag(),
            decimal(j.node_id as nat),
            jdef_crate_name(crate_name, j),
            decimal(j.def.node as nat),
        ],
{
    let d_id = decimal(j.node_id as nat);
    let d_node = decimal(j.def.node as nat);
    let name = jdef_crate_name(crate_name, j);
    lemma_decimal_plain(j.node_id as nat);
    lemma_decimal_plain(j.def.node as nat);
    assert(!jdef_tag().contains('\t')) by {
        assert(jdef_tag()[0] != '\t' && jdef_tag()[1] != '\t' && jdef_tag()[2] != '\t'
            && jdef_tag()[3] != '\t');
    }
    lemma_field(jdef_tag());
    lemma_field(d_id);
    lemma_field(name);
    lemma_field(d_node);
    let x1 = jdef_tag() + tab() + d_id;
    let x2 = x1 + tab() + name;
    lemma_split_fields(jdef_tag(), d_id);
    lemma_split_fields(x1, name);
    lemma_split_fields(x2, d_node);
    assert(jdef_line(crate_name, j) == x2 + tab() + d_node);
    assert(split_on(jdef_line(crate_name, j), '\t') =~= seq![jdef_tag(), d_id, name, d_node]);
}

/// The written map file has one line per node with a known start, then one
/// line per link; the line of link `k` holds four fields: the tag `jdef`,
/// the id of the linking node, the name of the crate that defines the
/// target — the name given with the link when the target is in another
/// crate (crate number other than 0), the writing crate's own name when it
/// is in that crate (crate number 0) — and the target's node id.
pub proof fn lemma_jdef_records_name_the_defining_crate(
    crate_name: Seq<char>,
    nodes: Seq<NodeInfo>,
    jumps: Seq<JumpDef>,
    new_format: bool,
    k: int,
)
    requires
        plain_field(crate_name),
        !new_format ==> crate_name != seq!['j', 'd', 'e', 'f'] && crate_name != seq!['n', 'o', 'd', 'e'],
        forall|i: int| 0 <= i < nodes.len() ==> node_writable(#[trigger] nodes[i]),
        forall|i: int| 0 <= i < jumps.len() ==> plain_field(#[trigger] jumps[i].def_crate_name@),
        0 <= k < jumps.len(),
    ensures
        lines_of(map_text(crate_name, nodes, jumps, new_format)).len() == known_starts(nodes)
            + jumps.len(),
        split_on(lines_of(map_text(crate_name, nodes, jumps, new_format))[known_starts(nodes) + k], '\t')
            == seq![
            seq!['j', 'd', 'e', 'f'],
            decimal(jumps[k].node_id as nat),
            if jumps[k].def.krate != 0 {
                jumps[k].def_crate_name@
            } else {
                crate_name
            },
            decimal(jumps[k].def.node as nat),
        ],
{
    assert(jdef_tag() == seq!['j', 'd', 'e', 'f']);
    assert(node_tag() == seq!['n', 'o', 'd', 'e']);
    let t = nodes_text(crate_name, nodes, new_format);
    assert forall|i: int| 0 <= i < jumps.len() implies one_line(
        jdef_crate_name(crate_name, #[trigger] jumps[i]),
    ) by {
        assert(plain_field(jumps[i].def_crate_name@));
    }
    lemma_nodes_text_lines(crate_name, nodes, new_format, 0);
    lemma_jumps_text_lines(t, crate_name, jumps, 0);
    let whole = map_text(crate_name, nodes, jumps, new_format);
    assert(whole == t + jumps_text(crate_name, jumps));
    let pw = split_on(whole, '\n');
    assert(lines_of(whole) == pw.drop_last());
    assert(lines_of(whole)[known_starts(nodes) + k] == pw[known_starts(nodes) + k]);
    assert(pw[known_starts(nodes) + k] == jdef_line(crate_name, jumps[k]));
    assert(plain_field(jumps[k].def_crate_name@));
    lemma_jdef_line_fields(crate_name, jumps[k]);
}

} // verus!
