//! The cross-crate map: for each definition of a crate, the source file and
//! position of its node, read from and written to the `.rfx` text format.
//!
//! Each line of a map file is a tab-separated record. `node` lines carry
//! `node, crate name, node id, parent id, file, line (counted from one),
//! column, length, kind, identifier`; `jdef` lines carry jump-to-definition
//! data; lines of an older format carry `crate name, node id, file, line,
//! column, length, ...` with no tag.

use std::collections::HashMap;
use vstd::prelude::*;
use crate::text::{
    chars_of, decimal, lemma_split_on_nonempty, lemma_split_on_prefix, lines_of, parse_i64,
    parse_i64_chars, parse_usize, parse_usize_chars, push_decimal, split_chars, split_on,
    string_from_chars,
};

verus! {

broadcast use vstd::std_specs::hash::group_hash_axioms;

/// Identifies a definition: the number of the crate that holds it and the
/// id of its AST node within that crate.
#[derive(Clone, Copy, Debug, PartialEq, Eq, Structural, Hash)]
pub struct DefId {
    pub krate: u32,
    pub node: u32,
}

/// A zero-based line index.
pub type ZeroBasedIndex = usize;

/// Where a definition stands in the source: the file, its zero-based line,
/// its column, and the length of its span.
#[derive(Clone, Debug)]
pub struct CrossCrateMapItem {
    pub fname: String,
    pub line: ZeroBasedIndex,
    pub col: usize,
    pub len: usize,
}

/// The mathematical value of a `CrossCrateMapItem`.
#[verifier::ext_equal]
pub struct CrossCrateMapItemView {
    pub fname: Seq<char>,
    pub line: usize,
    pub col: usize,
    pub len: usize,
}

impl View for CrossCrateMapItem {
    type V = CrossCrateMapItemView;

    open spec fn view(&self) -> CrossCrateMapItemView {
        CrossCrateMapItemView { fname: self.fname@, line: self.line, col: self.col, len: self.len }
    }
}

/// The key under which `id` is stored: the crate number in the high 32 bits,
/// the node id in the low 32 bits.
pub open spec fn def_id_key(id: DefId) -> u64 {
    (id.krate as int * 0x1_0000_0000 + id.node as int) as u64
}

/// Distinct definitions have distinct keys.
pub proof fn lemma_def_id_key_injective(a: DefId, b: DefId)
    ensures
        def_id_key(a) == def_id_key(b) <==> a == b,
{
    assert(a.krate as int * 0x1_0000_0000 + a.node as int <= u64::MAX) by (nonlinear_arith)
        requires
            a.krate <= u32::MAX,
            a.node <= u32::MAX,
    ;
    assert(b.krate as int * 0x1_0000_0000 + b.node as int <= u64::MAX) by (nonlinear_arith)
        requires
            b.krate <= u32::MAX,
            b.node <= u32::MAX,
    ;
    if def_id_key(a) == def_id_key(b) {
        assert(a.krate == b.krate && a.node == b.node) by (nonlinear_arith)
            requires
                a.krate as int * 0x1_0000_0000 + a.node as int == b.krate as int * 0x1_0000_0000
                    + b.node as int,
                a.node < 0x1_0000_0000,
                b.node < 0x1_0000_0000,
                a.node >= 0,
                b.node >= 0,
        ;
    }
}

fn key_of(id: DefId) -> (k: u64)
    ensures
        k == def_id_key(id),
{
    proof {
        assert(id.krate as int * 0x1_0000_0000 + id.node as int <= u64::MAX) by (nonlinear_arith)
            requires
                id.krate <= u32::MAX,
                id.node <= u32::MAX,
        ;
    }
    (id.krate as u64) * 0x1_0000_0000u64 + (id.node as u64)
}

/// The map from definitions to their places in the source.
pub struct CrossCrateMap {
    items: HashMap<u64, CrossCrateMapItem>,
}

impl View for CrossCrateMap {
    type V = Map<DefId, CrossCrateMapItemView>;

    closed spec fn view(&self) -> Map<DefId, CrossCrateMapItemView> {
        Map::new(
            |id: DefId| self.items@.contains_key(def_id_key(id)),
            |id: DefId| self.items@[def_id_key(id)]@,
        )
    }
}

impl CrossCrateMap {
    /// An empty map.
    pub fn new() -> (m: CrossCrateMap)
        ensures
            m@ == Map::<DefId, CrossCrateMapItemView>::empty(),
    {
        let m = CrossCrateMap { items: HashMap::new() };
        assert(m@ =~= Map::<DefId, CrossCrateMapItemView>::empty());
        m
    }

    /// Records `item` for `id`, replacing what was recorded for it before.
    pub fn insert(&mut self, id: DefId, item: CrossCrateMapItem)
        ensures
            final(self)@ == old(self)@.insert(id, item@),
    {
        let k = key_of(id);
        self.items.insert(k, item);
        proof {
            assert forall|d: DefId| #[trigger] self@.contains_key(d) == old(self)@.insert(id, item@).contains_key(d)
                by {
                lemma_def_id_key_injective(d, id);
            }
            assert forall|d: DefId| #[trigger] self@.contains_key(d) implies self@[d] == old(self)@.insert(id, item@)[d]
                by {
                lemma_def_id_key_injective(d, id);
            }
            assert(final(self)@ =~= old(self)@.insert(id, item@));
        }
    }

    /// Records everything that `other` records, replacing what `self` held
    /// for the same definitions.
    pub fn merge(&mut self, other: &CrossCrateMap)
        ensures
            final(self)@ == old(self)@.union_prefer_right(other@),
    {
        let ghost old_items = self.items@;
        let ghost others = other.items@;
        let ghost pairs = vstd::std_specs::iter::IteratorSpec::remaining(&vstd::std_specs::hash::spec_hash_map_iter(&other.items));
        let ghost mut n: int = 0;
        for entry in it: other.items.iter()
            invariant
                others == other.items@,
                pairs == it.seq(),
                n == it.index(),
                forall|k: u64| #[trigger]
                    self.items@.contains_key(k) <==> (old_items.contains_key(k) || pairs_map(
                        it.seq().take(it.index() as int),
                    ).contains_key(k)),
                forall|k: u64| #[trigger]
                    self.items@.contains_key(k) ==> self.items@[k]@ == (if pairs_map(
                        it.seq().take(it.index() as int),
                    ).contains_key(k) {
                        pairs_map(it.seq().take(it.index() as int))[k]@
                    } else {
                        old_items[k]@
                    }),
        {
            let (k, v) = entry;
            let ghost done = it.seq().take(it.index() as int);
            let item = CrossCrateMapItem { fname: v.fname.clone(), line: v.line, col: v.col, len: v.len };
            assert(item@ == (*v)@);
            self.items.insert(*k, item);
            proof {
                let now = done.push(entry);
                assert(it.seq().take(it.index() + 1) =~= now);
                assert(now.drop_last() =~= done);
                assert(pairs_map(now) == pairs_map(done).insert(*k, *v));
                assert forall|q: u64| #[trigger] self.items@.contains_key(q) <==> (old_items.contains_key(q)
                    || pairs_map(now).contains_key(q)) by {}
                assert forall|q: u64| #[trigger] self.items@.contains_key(q) implies self.items@[q]@ == (if pairs_map(now).contains_key(q) {
                        pairs_map(now)[q]@
                    } else {
                        old_items[q]@
                    }) by {}
                n = n + 1;
            }
        }
        proof {
            assert(n == pairs.len());
            assert(pairs.take(n) =~= pairs);
            lemma_pairs_map_entries(pairs);
            assert forall|k: u64| #[trigger] pairs_map(pairs).contains_key(k) implies others.contains_key(k)
                && pairs_map(pairs)[k] == others[k] by {
                let i = choose|i: int| 0 <= i < pairs.len() && *pairs[i].0 == k && pairs_map(pairs)[k] == *pairs[i].1;
                assert(others.contains_key(*pairs[i].0));
            }
            assert forall|k: u64| #[trigger] others.contains_key(k) implies pairs_map(pairs).contains_key(k) by {
                assert(pairs.contains((&k, &others[k])));
                let i = choose|i: int| 0 <= i < pairs.len() && pairs[i] == (&k, &others[k]);
                assert(*pairs[i].0 == k);
            }
            assert(pairs_map(pairs) =~= others);
            assert forall|d: DefId| #[trigger] self@.contains_key(d) == old(self)@.union_prefer_right(other@).contains_key(d)
                by {}
            assert forall|d: DefId| #[trigger] self@.contains_key(d) implies self@[d] == old(self)@.union_prefer_right(other@)[d]
                by {}
            assert(final(self)@ =~= old(self)@.union_prefer_right(other@));
        }
    }

    /// What is recorded for `id`, if anything.
    pub fn get(&self, id: DefId) -> (r: Option<&CrossCrateMapItem>)
        ensures
            match r {
                Some(item) => self@.contains_key(id) && item@ == self@[id],
                None => !self@.contains_key(id),
            },
    {
        let k = key_of(id);
        self.items.get(&k)
    }
}


/// The map that the key-value pairs `s` build, each pair in turn.
spec fn pairs_map(s: Seq<(&u64, &CrossCrateMapItem)>) -> Map<u64, CrossCrateMapItem>
    decreases s.len(),
{
    if s.len() == 0 {
        Map::empty()
    } else {
        pairs_map(s.drop_last()).insert(*s.last().0, *s.last().1)
    }
}

/// Each key of `pairs_map(s)` comes from a pair of `s` that carries its value.
proof fn lemma_pairs_map_entries(s: Seq<(&u64, &CrossCrateMapItem)>)
    ensures
        forall|k: u64| #[trigger]
            pairs_map(s).contains_key(k) ==> exists|i: int|
                0 <= i < s.len() && *s[i].0 == k && pairs_map(s)[k] == *s[i].1,
        forall|i: int| 0 <= i < s.len() ==> #[trigger] pairs_map(s).contains_key(*s[i].0),
    decreases s.len(),
{
    if s.len() > 0 {
        let t = s.drop_last();
        lemma_pairs_map_entries(t);
        assert forall|k: u64| #[trigger] pairs_map(s).contains_key(k) implies exists|i: int|
            0 <= i < s.len() && *s[i].0 == k && pairs_map(s)[k] == *s[i].1 by {
            if k == *s.last().0 {
                assert(*s[s.len() - 1].0 == k);
            } else {
                let i = choose|i: int| 0 <= i < t.len() && *t[i].0 == k && pairs_map(t)[k] == *t[i].1;
                assert(s[i] == t[i]);
            }
        }
        assert forall|i: int| 0 <= i < s.len() implies #[trigger] pairs_map(s).contains_key(*s[i].0) by {
            if i < s.len() - 1 {
                assert(s[i] == t[i]);
                assert(pairs_map(t).contains_key(*t[i].0));
            }
        }
    }
}

/// The tag of jump-to-definition records.
pub open spec fn jdef_tag() -> Seq<char> {
    seq!['j', 'd', 'e', 'f']
}

/// The tag of node records.
pub open spec fn node_tag() -> Seq<char> {
    seq!['n', 'o', 'd', 'e']
}

/// One less than `n`, where one less than zero is the largest `usize`.
pub open spec fn wrapping_dec(n: usize) -> usize {
    if n == 0 {
        usize::MAX
    } else {
        (n - 1) as usize
    }
}

/// One more than `n`, where one more than the largest `usize` is zero.
pub open spec fn wrapping_inc(n: usize) -> usize {
    if n == usize::MAX {
        0
    } else {
        (n + 1) as usize
    }
}

/// A decimal field read as a `usize`, zero where it does not read as one.
pub open spec fn usize_field(tok: Seq<char>) -> usize {
    match parse_usize(tok) {
        Some(v) => v,
        None => 0,
    }
}

/// A decimal field read as an `i64`, zero where it does not read as one.
pub open spec fn i64_field(tok: Seq<char>) -> i64 {
    match parse_i64(tok) {
        Some(v) => v,
        None => 0,
    }
}

/// The entry that a record with the given fields adds to the map of crate
/// number `crate_num`: none for a record of fewer than six fields or for a
/// `jdef` record; for a `node` record, the node id of field 2 and the file,
/// line (stored one less than written), column and length of fields 4 to 7;
/// for any other record, the older layout with the node id in field 1 and
/// file, line, column and length in fields 2 to 5.
pub open spec fn fields_entry(f: Seq<Seq<char>>, crate_num: i64) -> Option<(DefId, CrossCrateMapItemView)> {
    if f.len() < 6 {
        None
    } else if f[0] == jdef_tag() {
        None
    } else if f[0] == node_tag() {
        Some((
            DefId { krate: crate_num as u32, node: i64_field(f[2]) as u32 },
            CrossCrateMapItemView {
                fname: f[4],
                line: wrapping_dec(usize_field(f[5])),
                col: usize_field(f[6]),
                len: usize_field(f[7]),
            },
        ))
    } else {
        Some((
            DefId { krate: crate_num as u32, node: i64_field(f[1]) as u32 },
            CrossCrateMapItemView {
                fname: f[2],
                line: wrapping_dec(usize_field(f[3])),
                col: usize_field(f[4]),
                len: usize_field(f[5]),
            },
        ))
    }
}

/// The entry that the line `line` adds to the map of crate `crate_num`.
pub open spec fn line_entry(line: Seq<char>, crate_num: i64) -> Option<(DefId, CrossCrateMapItemView)> {
    fields_entry(split_on(line, '\t'), crate_num)
}

/// Whether a line can be read: a `node` record of six fields or more has
/// the eight that it is read from.
pub open spec fn line_readable(line: Seq<char>) -> bool {
    let f = split_on(line, '\t');
    f.len() >= 6 && f[0] == node_tag() ==> f.len() >= 8
}

/// Whether every line of `text` can be read.
pub open spec fn map_text_readable(text: Seq<char>) -> bool {
    forall|j: int| 0 <= j < lines_of(text).len() ==> line_readable(#[trigger] lines_of(text)[j])
}

/// The map that the lines `ls` describe: each line's entry in turn, where a
/// later line replaces what an earlier one recorded for the same definition.
pub open spec fn map_of_lines(ls: Seq<Seq<char>>, crate_num: i64) -> Map<DefId, CrossCrateMapItemView>
    decreases ls.len(),
{
    if ls.len() == 0 {
        Map::empty()
    } else {
        let m = map_of_lines(ls.drop_last(), crate_num);
        match line_entry(ls.last(), crate_num) {
            Some((id, item)) => m.insert(id, item),
            None => m,
        }
    }
}

/// A map read for crate number `crate_num` records definitions of that
/// crate only.
pub proof fn lemma_map_of_lines_in_crate(ls: Seq<Seq<char>>, crate_num: i64)
    ensures
        forall|id: DefId| #[trigger]
            map_of_lines(ls, crate_num).contains_key(id) ==> id.krate == crate_num as u32,
    decreases ls.len(),
{
    if ls.len() > 0 {
        lemma_map_of_lines_in_crate(ls.drop_last(), crate_num);
        let m = map_of_lines(ls.drop_last(), crate_num);
        match line_entry(ls.last(), crate_num) {
            Some((e, item)) => {
                assert(e.krate == crate_num as u32);
                assert(map_of_lines(ls, crate_num) == m.insert(e, item));
            },
            None => {
                assert(map_of_lines(ls, crate_num) == m);
            },
        }
    }
}

/// A line can be read exactly unless it is a `node` record of six or seven
/// tab-separated fields; in particular every line of fewer than six fields
/// (a blank line among them) can be read.
pub proof fn lemma_line_readable_exactly(l: Seq<char>)
    ensures
        line_readable(l) <==> !(6 <= split_on(l, '\t').len() <= 7 && split_on(l, '\t')[0] == seq![
            'n',
            'o',
            'd',
            'e',
        ]),
        split_on(l, '\t').len() < 6 ==> line_readable(l),
        l.len() == 0 ==> line_readable(l),
{
    assert(node_tag() == seq!['n', 'o', 'd', 'e']);
    assert(split_on(Seq::<char>::empty(), '\t').len() == 1);
}

/// A line of fewer than six tab-separated fields (a blank line among them),
/// and a `jdef` record, add no entry to the map.
pub proof fn lemma_short_and_jdef_lines_add_nothing(l: Seq<char>, crate_num: i64)
    ensures
        split_on(l, '\t').len() < 6 ==> line_entry(l, crate_num) is None,
        l.len() == 0 ==> line_entry(l, crate_num) is None,
        split_on(l, '\t')[0] == seq!['j', 'd', 'e', 'f'] ==> line_entry(l, crate_num) is None,
{
    lemma_split_on_nonempty(l, '\t');
    assert(jdef_tag() == seq!['j', 'd', 'e', 'f']);
    assert(split_on(Seq::<char>::empty(), '\t').len() == 1);
}

/// Inserting a line of fewer than six fields (a blank line, say) anywhere
/// among the lines of a map file leaves the map it describes unchanged.
pub proof fn lemma_short_line_changes_nothing(
    a: Seq<Seq<char>>,
    l: Seq<char>,
    b: Seq<Seq<char>>,
    crate_num: i64,
)
    requires
        split_on(l, '\t').len() < 6,
    ensures
        map_of_lines(a + seq![l] + b, crate_num) == map_of_lines(a + b, crate_num),
    decreases b.len(),
{
    lemma_short_and_jdef_lines_add_nothing(l, crate_num);
    if b.len() == 0 {
        assert(a + seq![l] + b =~= a.push(l));
        assert(a.push(l).drop_last() =~= a);
        assert(a + b =~= a);
    } else {
        lemma_short_line_changes_nothing(a, l, b.drop_last(), crate_num);
        assert((a + seq![l] + b).drop_last() =~= a + seq![l] + b.drop_last());
        assert((a + b).drop_last() =~= a + b.drop_last());
        assert((a + seq![l] + b).last() == b.last());
        assert((a + b).last() == b.last());
    }
}

/// A map text can be read exactly when none of its lines is a `node`
/// record of six or seven tab-separated fields.
pub proof fn lemma_map_text_readable_exactly(t: Seq<char>)
    ensures
        map_text_readable(t) <==> forall|j: int|
            0 <= j < lines_of(t).len() ==> !(6 <= #[trigger] split_on(lines_of(t)[j], '\t').len() <= 7
                && split_on(lines_of(t)[j], '\t')[0] == seq!['n', 'o', 'd', 'e']),
{
    assert forall|j: int| 0 <= j < lines_of(t).len() implies line_readable(
        #[trigger] lines_of(t)[j],
    ) == !(6 <= split_on(lines_of(t)[j], '\t').len() <= 7 && split_on(lines_of(t)[j], '\t')[0]
        == seq!['n', 'o', 'd', 'e']) by {
        lemma_line_readable_exactly(lines_of(t)[j]);
    }
}

/// The lines of a text are its newline-separated pieces, the last one
/// included whether or not a newline ends it: a final newline adds no line,
/// so a text and the same text with a final newline read alike.
pub proof fn lemma_lines_of_final_newline(t: Seq<char>)
    ensures
        lines_of(t.push('\n')) == split_on(t, '\n'),
        t.len() > 0 && t.last() != '\n' ==> lines_of(t) == split_on(t, '\n'),
        t.len() > 0 && t.last() != '\n' ==> lines_of(t.push('\n')) == lines_of(t),
        t.len() > 0 && t.last() != '\n' ==> (map_text_readable(t.push('\n')) <==> map_text_readable(t)),
{
    assert(t.push('\n').drop_last() =~= t);
    lemma_split_on_nonempty(t, '\n');
    assert(split_on(t, '\n').push(Seq::<char>::empty()).drop_last() =~= split_on(t, '\n'));
    if t.len() > 0 && t.last() != '\n' {
        lemma_split_on_nonempty(t.drop_last(), '\n');
        let init = split_on(t.drop_last(), '\n');
        assert(split_on(t, '\n').last() == init.last().push(t.last()));
    }
}

/// Whether `tok` is the word spelled by `word`.
fn chars_are(tok: &Vec<char>, word: [char; 4]) -> (r: bool)
    ensures
        r == (tok@ == seq![word[0], word[1], word[2], word[3]]),
{
    let r = tok.len() == 4 && tok[0] == word[0] && tok[1] == word[1] && tok[2] == word[2]
        && tok[3] == word[3];
    proof {
        if tok.len() == 4 {
            if r {
                assert(tok@ =~= seq![word[0], word[1], word[2], word[3]]);
            } else {
                assert(tok@ != seq![word[0], word[1], word[2], word[3]] ) by {
                    let w = seq![word[0], word[1], word[2], word[3]];
                    if tok@ == w {
                        assert(tok@[0] == w[0] && tok@[1] == w[1] && tok@[2] == w[2] && tok@[3] == w[3]);
                    }
                }
            }
        }
    }
    r
}

fn usize_field_of(tok: &Vec<char>) -> (v: usize)
    ensures
        v == usize_field(tok@),
{
    match parse_usize_chars(tok) {
        Some(v) => v,
        None => 0,
    }
}

fn i64_field_of(tok: &Vec<char>) -> (v: i64)
    ensures
        v == i64_field(tok@),
{
    match parse_i64_chars(tok) {
        Some(v) => v,
        None => 0,
    }
}

fn dec_wrapping(n: usize) -> (r: usize)
    ensures
        r == wrapping_dec(n),
{
    if n == 0 {
        usize::MAX
    } else {
        n - 1
    }
}

/// The entry that the line `line` adds to the map of crate `crate_num`.
pub fn read_line_entry(line: &Vec<char>, crate_num: i64) -> (r: Option<(DefId, CrossCrateMapItem)>)
    requires
        line_readable(line@),
    ensures
        match (r, line_entry(line@, crate_num)) {
            (Some((id, item)), Some((sid, sitem))) => id == sid && item@ == sitem,
            (None, None) => true,
            _ => false,
        },
{
    let toks = split_chars(line, '\t');
    let ghost f = split_on(line@, '\t');
    if toks.len() < 6 {
        return None;
    }
    proof {
        assert(toks[0]@ == f[0]);
        assert(toks[1]@ == f[1]);
        assert(toks[2]@ == f[2]);
        assert(toks[3]@ == f[3]);
        assert(toks[4]@ == f[4]);
        assert(toks[5]@ == f[5]);
    }
    if chars_are(&toks[0], ['j', 'd', 'e', 'f']) {
        None
    } else if chars_are(&toks[0], ['n', 'o', 'd', 'e']) {
        proof {
            assert(toks[6]@ == f[6]);
            assert(toks[7]@ == f[7]);
        }
        let node_id = i64_field_of(&toks[2]);
        let id = DefId { krate: crate_num as u32, node: node_id as u32 };
        let item = CrossCrateMapItem {
            fname: string_from_chars(&toks[4]),
            line: dec_wrapping(usize_field_of(&toks[5])),
            col: usize_field_of(&toks[6]),
            len: usize_field_of(&toks[7]),
        };
        Some((id, item))
    } else {
        let node_id = i64_field_of(&toks[1]);
        let id = DefId { krate: crate_num as u32, node: node_id as u32 };
        let item = CrossCrateMapItem {
            fname: string_from_chars(&toks[2]),
            line: dec_wrapping(usize_field_of(&toks[3])),
            col: usize_field_of(&toks[4]),
            len: usize_field_of(&toks[5]),
        };
        Some((id, item))
    }
}


/// Whether the line `line` can be read (see `line_readable`).
pub fn line_is_readable(line: &Vec<char>) -> (r: bool)
    ensures
        r == line_readable(line@),
{
    let toks = split_chars(line, '\t');
    if toks.len() >= 6 {
        proof {
            assert(toks[0]@ == split_on(line@, '\t')[0]);
        }
        !chars_are(&toks[0], ['n', 'o', 'd', 'e']) || toks.len() >= 8
    } else {
        true
    }
}

/// Whether every line of `map_text` can be read, so that
/// `read_cross_crate_map` may be called on it.
pub fn map_text_is_readable(map_text: &str) -> (r: bool)
    ensures
        r == map_text_readable(map_text@),
{
    let cs = chars_of(map_text);
    let mut cur: Vec<char> = Vec::new();
    let mut i: usize = 0;
    proof {
        assert(cs@.take(0) =~= Seq::<char>::empty());
    }
    while i < cs.len()
        invariant
            i <= cs.len(),
            cs@ == map_text@,
            split_on(cs@.take(i as int), '\n').last() == cur@,
            forall|j: int|
                0 <= j < split_on(cs@.take(i as int), '\n').len() - 1 ==> line_readable(
                    #[trigger] split_on(cs@.take(i as int), '\n')[j],
                ),
        decreases cs.len() - i,
    {
        let c = cs[i];
        let ghost before = split_on(cs@.take(i as int), '\n');
        let ghost after = split_on(cs@.take(i + 1), '\n');
        proof {
            assert(cs@.take(i + 1).drop_last() =~= cs@.take(i as int));
            assert(cs@.take(i + 1).last() == c);
            lemma_split_on_nonempty(cs@.take(i as int), '\n');
        }
        if c == '\n' {
            if !line_is_readable(&cur) {
                proof {
                    let j = before.len() - 1;
                    lemma_split_on_prefix(cs@, i + 1, '\n');
                    assert(after == before.push(Seq::<char>::empty()));
                    assert(after[j] == split_on(cs@, '\n')[j]);
                    lemma_split_on_nonempty(cs@, '\n');
                    assert(lines_of(cs@)[j] == cur@);
                }
                return false;
            }
            cur = Vec::new();
            proof {
                assert(after == before.push(Seq::<char>::empty()));
                assert forall|j: int| 0 <= j < after.len() - 1 implies line_readable(#[trigger] after[j]) by {
                    assert(after[j] == before[j] || j == before.len() - 1);
                }
            }
        } else {
            cur.push(c);
            proof {
                assert forall|j: int| 0 <= j < after.len() - 1 implies line_readable(#[trigger] after[j]) by {
                    assert(after[j] == before[j]);
                }
            }
        }
        i = i + 1;
    }
    proof {
        assert(cs@.take(i as int) =~= cs@);
        lemma_split_on_nonempty(cs@, '\n');
    }
    let ps = Ghost(split_on(cs@, '\n'));
    if cur.len() > 0 {
        let last_ok = line_is_readable(&cur);
        proof {
            assert(lines_of(cs@) == ps@);
            if !last_ok {
                assert(!line_readable(lines_of(cs@)[ps@.len() - 1]));
            }
        }
        last_ok
    } else {
        proof {
            assert(lines_of(cs@) =~= ps@.drop_last());
            assert forall|j: int| 0 <= j < lines_of(cs@).len() implies line_readable(#[trigger] lines_of(cs@)[j]) by {
                assert(lines_of(cs@)[j] == ps@[j]);
            }
        }
        true
    }
}

/// Reads the cross-crate map of crate number `crate_num` from the text of
/// its map file: each line that is a node record, or a record of the older
/// layout, of at least six tab-separated fields, records a place in the
/// source for a node of that crate; `jdef` records and shorter lines are
/// passed over; a later line wins over an earlier one for the same node.
pub fn read_cross_crate_map(crate_num: i64, map_text: &str) -> (xcm: CrossCrateMap)
    requires
        map_text_readable(map_text@),
    ensures
        xcm@ == map_of_lines(lines_of(map_text@), crate_num),
{
    let cs = chars_of(map_text);
    let mut xcm = CrossCrateMap::new();
    let mut cur: Vec<char> = Vec::new();
    let mut i: usize = 0;
    proof {
        assert(cs@.take(0) =~= Seq::<char>::empty());
        assert(split_on(cs@.take(0), '\n').drop_last() =~= Seq::<Seq<char>>::empty());
    }
    while i < cs.len()
        invariant
            i <= cs.len(),
            cs@ == map_text@,
            map_text_readable(cs@),
            split_on(cs@.take(i as int), '\n').last() == cur@,
            xcm@ == map_of_lines(split_on(cs@.take(i as int), '\n').drop_last(), crate_num),
        decreases cs.len() - i,
    {
        let c = cs[i];
        let ghost before = split_on(cs@.take(i as int), '\n');
        let ghost after = split_on(cs@.take(i + 1), '\n');
        proof {
            assert(cs@.take(i + 1).drop_last() =~= cs@.take(i as int));
            assert(cs@.take(i + 1).last() == c);
            lemma_split_on_nonempty(cs@.take(i as int), '\n');
        }
        if c == '\n' {
            proof {
                let j = before.len() - 1;
                assert(after == before.push(Seq::<char>::empty()));
                lemma_split_on_prefix(cs@, i + 1, '\n');
                assert(after[j] == split_on(cs@, '\n')[j]);
                assert(lines_of(cs@)[j] == cur@);
                assert(line_readable(lines_of(cs@)[j]));
                assert(after.drop_last() =~= before);
                assert(before.drop_last() =~= before.drop_last());
            }
            match read_line_entry(&cur, crate_num) {
                Some((id, item)) => {
                    xcm.insert(id, item);
                },
                None => {},
            }
            cur = Vec::new();
        } else {
            proof {
                assert(after.drop_last() =~= before.drop_last());
            }
            cur.push(c);
        }
        i = i + 1;
    }
    proof {
        assert(cs@.take(i as int) =~= cs@);
        lemma_split_on_nonempty(cs@, '\n');
    }
    if cur.len() > 0 {
        proof {
            let ps = split_on(cs@, '\n');
            assert(lines_of(cs@) == ps);
            assert(line_readable(lines_of(cs@)[ps.len() - 1]));
            assert(ps.drop_last() =~= lines_of(cs@).drop_last());
        }
        match read_line_entry(&cur, crate_num) {
            Some((id, item)) => {
                xcm.insert(id, item);
            },
            None => {},
        }
    }
    xcm
}


/// The text to read a crate's map from, given what reading its map file
/// gave: that text, when the file was read and is not empty; `None` when
/// the map is to be looked for in the library directory instead.
pub fn primary_map_text(loaded: Option<String>) -> (r: Option<String>)
    ensures
        match loaded {
            Some(t) => if t@.len() > 0 {
                r == Some(t)
            } else {
                r is None
            },
            None => r is None,
        },
{
    match loaded {
        Some(t) => {
            if t.as_str().is_empty() {
                None
            } else {
                Some(t)
            }
        },
        None => None,
    }
}

/// The path, within the library directory, of the map file of the crate
/// named `crate_name`: `lib<name>/lib.rfx`.
pub fn crate_map_file(crate_name: &str) -> (path: String)
    ensures
        path@ == seq!['l', 'i', 'b'] + crate_name@ + seq!['/', 'l', 'i', 'b', '.', 'r', 'f', 'x'],
{
    let mut out: Vec<char> = Vec::new();
    out.push('l');
    out.push('i');
    out.push('b');
    let name = chars_of(crate_name);
    push_all(&mut out, &name);
    out.push('/');
    out.push('l');
    out.push('i');
    out.push('b');
    out.push('.');
    out.push('r');
    out.push('f');
    out.push('x');
    proof {
        assert(out@ =~= seq!['l', 'i', 'b'] + crate_name@ + seq!['/', 'l', 'i', 'b', '.', 'r', 'f', 'x']);
    }
    string_from_chars(&out)
}

/// A place in a source file: its name, zero-based line and column.
#[derive(Clone, Debug)]
pub struct TextFilePos {
    pub fname: String,
    pub line: ZeroBasedIndex,
    pub col: usize,
}

/// What the map file records of one AST node: its id, the id of its parent,
/// where its span starts (when that is known), the length of the span, its
/// kind and its identifier (empty where it has none).
#[derive(Clone, Debug)]
pub struct NodeInfo {
    pub node_id: u32,
    pub parent_id: u32,
    pub pos: Option<TextFilePos>,
    pub len: usize,
    pub kind: String,
    pub ident: String,
}

/// A jump-to-definition link: the node `node_id` refers to the definition
/// `def`; `def_crate_name` names the crate of `def` when that is another
/// crate (`def.krate > 0`) and is not read otherwise.
#[derive(Clone, Debug)]
pub struct JumpDef {
    pub node_id: u32,
    pub def: DefId,
    pub def_crate_name: String,
}

/// A single tab.
pub open spec fn tab() -> Seq<char> {
    seq!['\t']
}

/// The record of node `n`, which starts at `p`, in the map file of crate
/// `crate_name`: the tagged layout, or the older one.
pub open spec fn node_line(crate_name: Seq<char>, n: NodeInfo, p: TextFilePos, new_format: bool) -> Seq<char> {
    if new_format {
        node_tag() + tab() + crate_name + tab() + decimal(n.node_id as nat) + tab() + decimal(
            n.parent_id as nat,
        ) + tab() + p.fname@ + tab() + decimal(wrapping_inc(p.line) as nat) + tab() + decimal(
            p.col as nat,
        ) + tab() + decimal(n.len as nat) + tab() + n.kind@ + tab() + n.ident@
    } else {
        crate_name + tab() + decimal(n.node_id as nat) + tab() + p.fname@ + tab() + decimal(
            wrapping_inc(p.line) as nat,
        ) + tab() + decimal(p.col as nat) + tab() + decimal(n.len as nat) + tab() + n.kind@ + tab()
            + n.ident@
    }
}

/// The node records of `nodes`, one line each, in order; a node whose start
/// is not known is left out.
pub open spec fn nodes_text(crate_name: Seq<char>, nodes: Seq<NodeInfo>, new_format: bool) -> Seq<char>
    decreases nodes.len(),
{
    if nodes.len() == 0 {
        Seq::empty()
    } else {
        nodes_text(crate_name, nodes.drop_last(), new_format) + match nodes.last().pos {
            Some(p) => node_line(crate_name, nodes.last(), p, new_format).push('\n'),
            None => Seq::empty(),
        }
    }
}

/// The crate named in the record of `j`: the crate of the definition when
/// it is another crate, else the crate whose map this is.
pub open spec fn jdef_crate_name(crate_name: Seq<char>, j: JumpDef) -> Seq<char> {
    if j.def.krate > 0 {
        j.def_crate_name@
    } else {
        crate_name
    }
}

/// The record of the link `j` in the map file of crate `crate_name`.
pub open spec fn jdef_line(crate_name: Seq<char>, j: JumpDef) -> Seq<char> {
    jdef_tag() + tab() + decimal(j.node_id as nat) + tab() + jdef_crate_name(crate_name, j) + tab()
        + decimal(j.def.node as nat)
}

/// The link records of `jumps`, one line each, in order.
pub open spec fn jumps_text(crate_name: Seq<char>, jumps: Seq<JumpDef>) -> Seq<char>
    decreases jumps.len(),
{
    if jumps.len() == 0 {
        Seq::empty()
    } else {
        jumps_text(crate_name, jumps.drop_last()) + jdef_line(crate_name, jumps.last()).push('\n')
    }
}

/// The text of the map file of crate `crate_name`.
pub open spec fn map_text(crate_name: Seq<char>, nodes: Seq<NodeInfo>, jumps: Seq<JumpDef>, new_format: bool) -> Seq<char> {
    nodes_text(crate_name, nodes, new_format) + jumps_text(crate_name, jumps)
}

fn push_all(out: &mut Vec<char>, s: &Vec<char>)
    ensures
        final(out)@ == old(out)@ + s@,
{
    let mut i: usize = 0;
    while i < s.len()
        invariant
            i <= s.len(),
            out@ == old(out)@ + s@.take(i as int),
        decreases s.len() - i,
    {
        proof {
            assert(s@.take(i + 1) =~= s@.take(i as int).push(s@[i as int]));
        }
        out.push(s[i]);
        i = i + 1;
    }
    proof {
        assert(s@.take(i as int) =~= s@);
    }
}

fn push_string(out: &mut Vec<char>, s: &String)
    ensures
        final(out)@ == old(out)@ + s@,
{
    let cs = chars_of(s.as_str());
    push_all(out, &cs);
}

fn inc_wrapping(n: usize) -> (r: usize)
    ensures
        r == wrapping_inc(n),
{
    if n == usize::MAX {
        0
    } else {
        n + 1
    }
}

fn push_tag(out: &mut Vec<char>, word: [char; 4])
    ensures
        final(out)@ == old(out)@ + seq![word[0], word[1], word[2], word[3]],
{
    out.push(word[0]);
    out.push(word[1]);
    out.push(word[2]);
    out.push(word[3]);
    proof {
        assert(out@ =~= old(out)@ + seq![word[0], word[1], word[2], word[3]]);
    }
}

fn push_node_line(out: &mut Vec<char>, crate_name: &Vec<char>, n: &NodeInfo, p: &TextFilePos, new_format: bool)
    ensures
        final(out)@ == old(out)@ + node_line(crate_name@, *n, *p, new_format).push('\n'),
{
    let ghost start = out@;
    let ghost head = if new_format {
        node_tag() + tab() + crate_name@ + tab() + decimal(n.node_id as nat) + tab() + decimal(
            n.parent_id as nat,
        ) + tab()
    } else {
        crate_name@ + tab() + decimal(n.node_id as nat) + tab()
    };
    if new_format {
        push_tag(out, ['n', 'o', 'd', 'e']);
        out.push('\t');
        push_all(out, crate_name);
        out.push('\t');
        push_decimal(out, n.node_id as u64);
        out.push('\t');
        push_decimal(out, n.parent_id as u64);
        out.push('\t');
    } else {
        push_all(out, crate_name);
        out.push('\t');
        push_decimal(out, n.node_id as u64);
        out.push('\t');
    }
    assert(out@ =~= start + head);
    let ghost mid = head + p.fname@ + tab() + decimal(wrapping_inc(p.line) as nat) + tab();
    push_string(out, &p.fname);
    out.push('\t');
    push_decimal(out, inc_wrapping(p.line) as u64);
    out.push('\t');
    assert(out@ =~= start + mid);
    push_decimal(out, p.col as u64);
    out.push('\t');
    push_decimal(out, n.len as u64);
    out.push('\t');
    push_string(out, &n.kind);
    out.push('\t');
    push_string(out, &n.ident);
    out.push('\n');
    proof {
        let whole = mid + decimal(p.col as nat) + tab() + decimal(n.len as nat) + tab() + n.kind@
            + tab() + n.ident@;
        assert(out@ =~= start + whole.push('\n'));
        assert(whole =~= node_line(crate_name@, *n, *p, new_format));
    }
}

fn push_jdef_line(out: &mut Vec<char>, crate_name: &Vec<char>, j: &JumpDef)
    ensures
        final(out)@ == old(out)@ + jdef_line(crate_name@, *j).push('\n'),
{
    push_tag(out, ['j', 'd', 'e', 'f']);
    out.push('\t');
    push_decimal(out, j.node_id as u64);
    out.push('\t');
    if j.def.krate > 0 {
        push_string(out, &j.def_crate_name);
    } else {
        push_all(out, crate_name);
    }
    out.push('\t');
    push_decimal(out, j.def.node as u64);
    out.push('\n');
    proof {
        assert(out@ =~= old(out)@ + jdef_line(crate_name@, *j).push('\n'));
    }
}

/// The text of the map file of crate `crate_name`: a record for each node
/// of `nodes` whose start is known, then a record for each link of `jumps`,
/// one per line, in order; node records in the tagged layout when
/// `new_format` holds, else in the older one.
pub fn write_cross_crate_map(crate_name: &str, nodes: &Vec<NodeInfo>, jumps: &Vec<JumpDef>, new_format: bool) -> (text: String)
    ensures
        text@ == map_text(crate_name@, nodes@, jumps@, new_format),
{
    let cname = chars_of(crate_name);
    let mut out: Vec<char> = Vec::new();
    let mut i: usize = 0;
    while i < nodes.len()
        invariant
            i <= nodes.len(),
            cname@ == crate_name@,
            out@ == nodes_text(crate_name@, nodes@.take(i as int), new_format),
        decreases nodes.len() - i,
    {
        proof {
            assert(nodes@.take(i + 1).drop_last() =~= nodes@.take(i as int));
        }
        match &nodes[i].pos {
            Some(p) => push_node_line(&mut out, &cname, &nodes[i], p, new_format),
            None => {},
        }
        proof {
            assert(out@ =~= nodes_text(crate_name@, nodes@.take(i + 1), new_format));
        }
        i = i + 1;
    }
    proof {
        assert(nodes@.take(i as int) =~= nodes@);
    }
    let ghost node_part = out@;
    let mut k: usize = 0;
    while k < jumps.len()
        invariant
            k <= jumps.len(),
            cname@ == crate_name@,
            out@ == node_part + jumps_text(crate_name@, jumps@.take(k as int)),
        decreases jumps.len() - k,
    {
        proof {
            assert(jumps@.take(k + 1).drop_last() =~= jumps@.take(k as int));
        }
        push_jdef_line(&mut out, &cname, &jumps[k]);
        proof {
            assert(out@ =~= node_part + jumps_text(crate_name@, jumps@.take(k + 1)));
        }
        k = k + 1;
    }
    proof {
        assert(jumps@.take(k as int) =~= jumps@);
    }
    string_from_chars(&out)
}

} // verus!
