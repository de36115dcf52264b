//! Splits one file's text into named change blocks.
//!
//! A line starting with the start delimiter opens a block and carries
//! `key=value` attributes; a line equal to the end delimiter closes it. Every
//! block depends on all blocks closed before it in the same file.

use vstd::prelude::*;
use crate::text::{
    chars_of, decimal, lines_chars, lines_of, push_decimal, split_on, split_on_chars, split_ws,
    split_ws_chars, starts_with, starts_with_chars, string_of, strip_repeated,
    strip_repeated_chars, trim, trim_chars, trim_end, trim_start, views, joined_lines,
    lemma_lines_of_joined, plain_line,
};

verus! {

/// One change block: its name, its trimmed text, the names it depends on and
/// the attributes of its opening line, in order of appearance.
pub struct Stmt {
    pub change_name: String,
    pub value: String,
    pub dependencies: Vec<String>,
    pub properties: Vec<(String, String)>,
}

pub struct BlockView {
    pub name: Seq<char>,
    pub value: Seq<char>,
    pub deps: Seq<Seq<char>>,
    pub props: Seq<(Seq<char>, Seq<char>)>,
}

pub open spec fn string_views(v: Seq<String>) -> Seq<Seq<char>> {
    v.map_values(|s: String| s@)
}

pub open spec fn pair_views(v: Seq<(String, String)>) -> Seq<(Seq<char>, Seq<char>)> {
    v.map_values(|p: (String, String)| (p.0@, p.1@))
}

impl View for Stmt {
    type V = BlockView;

    open spec fn view(&self) -> BlockView {
        BlockView {
            name: self.change_name@,
            value: self.value@,
            deps: string_views(self.dependencies@),
            props: pair_views(self.properties@),
        }
    }
}

pub open spec fn block_views(v: Seq<Stmt>) -> Seq<BlockView> {
    v.map_values(|s: Stmt| s@)
}

impl Stmt {
    pub fn new(
        change_name: String,
        value: String,
        dependencies: Vec<String>,
        properties: Vec<(String, String)>,
    ) -> (r: Self)
        ensures
            r.change_name == change_name,
            r.value == value,
            r.dependencies == dependencies,
            r.properties == properties,
    {
        Stmt { change_name, value, dependencies, properties }
    }
}

/// The value of the last attribute named `k`: a later attribute overrides an
/// earlier one.
pub open spec fn lookup(props: Seq<(Seq<char>, Seq<char>)>, k: Seq<char>) -> Option<Seq<char>>
    decreases props.len(),
{
    if props.len() == 0 {
        None
    } else if props[props.len() - 1].0 == k {
        Some(props[props.len() - 1].1)
    } else {
        lookup(props.drop_last(), k)
    }
}

/// `key=value` tokens as pairs of the text before the first `=` and the text
/// between the first and a second `=`; tokens without `=` are skipped.
pub open spec fn attributes_of_tokens(toks: Seq<Seq<char>>) -> Seq<(Seq<char>, Seq<char>)>
    decreases toks.len(),
{
    if toks.len() == 0 {
        seq![]
    } else {
        let rest = attributes_of_tokens(toks.drop_last());
        let parts = split_on(toks[toks.len() - 1], '=');
        if parts.len() >= 2 {
            rest.push((parts[0], parts[1]))
        } else {
            rest
        }
    }
}

/// The attributes on an opening line.
pub open spec fn attributes(line: Seq<char>, start: Seq<char>) -> Seq<(Seq<char>, Seq<char>)> {
    attributes_of_tokens(split_ws(strip_repeated(line, start)))
}

pub open spec fn depends_key() -> Seq<char> {
    seq!['d', 'e', 'p', 'e', 'n', 'd', 's']
}

/// The comma-separated, trimmed names of the `depends` attribute.
pub open spec fn declared(props: Seq<(Seq<char>, Seq<char>)>) -> Seq<Seq<char>> {
    match lookup(props, depends_key()) {
        Some(v) => split_on(v, ',').map_values(|t: Seq<char>| trim(t)),
        None => seq![],
    }
}

/// Set insertion on a duplicate-free list.
pub open spec fn add_dep(ds: Seq<Seq<char>>, d: Seq<char>) -> Seq<Seq<char>> {
    if ds.contains(d) {
        ds
    } else {
        ds.push(d)
    }
}

pub open spec fn merge(ds: Seq<Seq<char>>, extra: Seq<Seq<char>>) -> Seq<Seq<char>>
    decreases extra.len(),
{
    if extra.len() == 0 {
        ds
    } else {
        add_dep(merge(ds, extra.drop_last()), extra[extra.len() - 1])
    }
}

pub open spec fn root_name(n: nat) -> Seq<char> {
    seq!['r', 'o', 'o', 't'] + decimal(n)
}

/// The scanner's state between lines.
pub struct ScanView {
    pub blocks: Seq<BlockView>,
    pub deps: Seq<Seq<char>>,
    pub value: Seq<char>,
    pub props: Seq<(Seq<char>, Seq<char>)>,
    pub open: bool,
    pub counter: nat,
    pub name: Seq<char>,
}

pub open spec fn block_of(st: ScanView, name: Seq<char>) -> BlockView {
    BlockView {
        name,
        value: trim(st.value),
        deps: merge(st.deps, declared(st.props)),
        props: st.props,
    }
}

pub open spec fn scan_line(
    st: ScanView,
    line: Seq<char>,
    start: Seq<char>,
    end: Seq<char>,
    key: Seq<char>,
) -> ScanView {
    let t = trim(line);
    if starts_with(t, start) {
        let props = attributes(line, start);
        match lookup(props, key) {
            Some(nm) => ScanView { props, open: true, name: nm, ..st },
            None => ScanView {
                props,
                open: true,
                name: root_name(st.counter),
                counter: st.counter + 1,
                ..st
            },
        }
    } else if t == end {
        if st.open {
            ScanView {
                blocks: st.blocks.push(block_of(st, st.name)),
                deps: add_dep(st.deps, st.name),
                value: seq![],
                props: seq![],
                open: false,
                ..st
            }
        } else {
            let nm = root_name(st.counter);
            ScanView {
                blocks: st.blocks.push(block_of(st, nm)),
                deps: add_dep(st.deps, nm),
                value: seq![],
                counter: st.counter + 1,
                name: nm,
                ..st
            }
        }
    } else {
        ScanView { value: st.value + line + seq!['\n'], ..st }
    }
}

pub open spec fn initial_scan() -> ScanView {
    ScanView {
        blocks: seq![],
        deps: seq![],
        value: seq![],
        props: seq![],
        open: false,
        counter: 0,
        name: seq![],
    }
}

pub open spec fn scan_lines(
    lines: Seq<Seq<char>>,
    i: int,
    start: Seq<char>,
    end: Seq<char>,
    key: Seq<char>,
) -> ScanView
    decreases i,
{
    if i <= 0 {
        initial_scan()
    } else {
        scan_line(scan_lines(lines, i - 1, start, end, key), lines[i - 1], start, end, key)
    }
}

/// Text left over at the end is flushed as one more synthesized block.
pub open spec fn finish(st: ScanView) -> Seq<BlockView> {
    if trim(st.value).len() > 0 {
        st.blocks.push(block_of(st, root_name(st.counter)))
    } else {
        st.blocks
    }
}

pub open spec fn parse_blocks(
    content: Seq<char>,
    start: Seq<char>,
    end: Seq<char>,
    key: Seq<char>,
) -> Seq<BlockView> {
    let lines = lines_of(content);
    finish(scan_lines(lines, lines.len() as int, start, end, key))
}

/// Block `i` depends on a name exactly when an earlier block bears it or its
/// own `depends` attribute declares it.
pub open spec fn depends_on_earlier(bs: Seq<BlockView>) -> bool {
    forall|i: int, d: Seq<char>|
        0 <= i < bs.len() ==> (#[trigger] bs[i].deps.contains(d) <==> (exists|j: int|
            0 <= j < i && #[trigger] bs[j].name == d) || declared(bs[i].props).contains(d))
}

spec fn scan_invariant(st: ScanView) -> bool {
    &&& depends_on_earlier(st.blocks)
    &&& forall|d: Seq<char>|
        #[trigger] st.deps.contains(d) <==> exists|j: int| 0 <= j < st.blocks.len() && #[trigger] st.blocks[j].name == d
}

proof fn lemma_add_dep_contains(ds: Seq<Seq<char>>, x: Seq<char>, d: Seq<char>)
    ensures
        add_dep(ds, x).contains(d) <==> ds.contains(d) || d == x,
{
    if !ds.contains(x) {
        assert(ds.push(x)[ds.len() as int] == x);
        if ds.push(x).contains(d) && d != x {
            let k = choose|k: int| 0 <= k < ds.len() + 1 && ds.push(x)[k] == d;
            assert(ds[k] == d);
        }
        if ds.contains(d) {
            let k = choose|k: int| 0 <= k < ds.len() && ds[k] == d;
            assert(ds.push(x)[k] == d);
        }
    }
}

proof fn lemma_merge_contains(ds: Seq<Seq<char>>, extra: Seq<Seq<char>>, d: Seq<char>)
    ensures
        merge(ds, extra).contains(d) <==> ds.contains(d) || extra.contains(d),
    decreases extra.len(),
{
    if extra.len() > 0 {
        let last = extra[extra.len() - 1];
        lemma_merge_contains(ds, extra.drop_last(), d);
        lemma_add_dep_contains(merge(ds, extra.drop_last()), last, d);
        if extra.contains(d) && d != last {
            let k = choose|k: int| 0 <= k < extra.len() && extra[k] == d;
            assert(extra.drop_last()[k] == d);
        }
        if extra.drop_last().contains(d) {
            let k = choose|k: int| 0 <= k < extra.len() - 1 && extra.drop_last()[k] == d;
            assert(extra[k] == d);
        }
    }
}

/// Appending the block that `st` closes under `nm` keeps the invariant.
proof fn lemma_close_block(st: ScanView, nm: Seq<char>)
    requires
        scan_invariant(st),
    ensures
        depends_on_earlier(st.blocks.push(block_of(st, nm))),
        forall|d: Seq<char>|
            #[trigger] add_dep(st.deps, nm).contains(d) <==> exists|j: int|
                0 <= j < st.blocks.len() + 1 && #[trigger] st.blocks.push(block_of(st, nm))[j].name == d,
{
    let bs = st.blocks.push(block_of(st, nm));
    let n = st.blocks.len() as int;
    assert forall|i: int, d: Seq<char>| 0 <= i < bs.len() implies (#[trigger] bs[i].deps.contains(d)
        <==> (exists|j: int| 0 <= j < i && #[trigger] bs[j].name == d) || declared(bs[i].props).contains(d)) by {
        if i < n {
            assert(bs[i] == st.blocks[i]);
            if exists|j: int| 0 <= j < i && bs[j].name == d {
                let j = choose|j: int| 0 <= j < i && bs[j].name == d;
                assert(st.blocks[j].name == d);
            }
            if exists|j: int| 0 <= j < i && st.blocks[j].name == d {
                let j = choose|j: int| 0 <= j < i && st.blocks[j].name == d;
                assert(bs[j].name == d);
            }
        } else {
            lemma_merge_contains(st.deps, declared(st.props), d);
            if st.deps.contains(d) {
                let j = choose|j: int| 0 <= j < n && st.blocks[j].name == d;
                assert(bs[j].name == d);
            }
            if exists|j: int| 0 <= j < i && bs[j].name == d {
                let j = choose|j: int| 0 <= j < i && bs[j].name == d;
                assert(st.blocks[j].name == d);
            }
        }
    }
    assert forall|d: Seq<char>| #[trigger] add_dep(st.deps, nm).contains(d) <==> exists|j: int|
        0 <= j < n + 1 && #[trigger] bs[j].name == d by {
        lemma_add_dep_contains(st.deps, nm, d);
        if st.deps.contains(d) {
            let j = choose|j: int| 0 <= j < n && st.blocks[j].name == d;
            assert(bs[j].name == d);
        }
        if d == nm {
            assert(bs[n].name == d);
        }
        if exists|j: int| 0 <= j < n + 1 && bs[j].name == d {
            let j = choose|j: int| 0 <= j < n + 1 && bs[j].name == d;
            if j < n {
                assert(st.blocks[j].name == d);
            }
        }
    }
}

proof fn lemma_scan_invariant(
    lines: Seq<Seq<char>>,
    i: int,
    start: Seq<char>,
    end: Seq<char>,
    key: Seq<char>,
)
    requires
        0 <= i <= lines.len(),
    ensures
        scan_invariant(scan_lines(lines, i, start, end, key)),
    decreases i,
{
    if i > 0 {
        lemma_scan_invariant(lines, i - 1, start, end, key);
        let st = scan_lines(lines, i - 1, start, end, key);
        let line = lines[i - 1];
        let t = trim(line);
        if !starts_with(t, start) && t == end {
            let nm = if st.open {
                st.name
            } else {
                root_name(st.counter)
            };
            lemma_close_block(st, nm);
            let next = scan_lines(lines, i, start, end, key);
            assert(next.blocks == st.blocks.push(block_of(st, nm)));
            assert(next.deps == add_dep(st.deps, nm));
            assert(scan_invariant(next));
        } else {
            let next = scan_lines(lines, i, start, end, key);
            assert(next.blocks == st.blocks);
            assert(next.deps == st.deps);
        }
    } else {
        assert(scan_invariant(initial_scan()));
    }
}

/// Every block of a file depends on all blocks before it in that file, and on
/// nothing else but the names its own `depends` attribute declares.
pub proof fn lemma_implicit_chain(
    content: Seq<char>,
    start: Seq<char>,
    end: Seq<char>,
    key: Seq<char>,
)
    ensures
        depends_on_earlier(parse_blocks(content, start, end, key)),
{
    let lines = lines_of(content);
    lemma_scan_invariant(lines, lines.len() as int, start, end, key);
    let st = scan_lines(lines, lines.len() as int, start, end, key);
    if trim(st.value).len() > 0 {
        lemma_close_block(st, root_name(st.counter));
    }
}

/// `scan_line` applied to the first `i` of `lines`, starting from `st`.
pub open spec fn scan_from(
    st: ScanView,
    lines: Seq<Seq<char>>,
    i: int,
    start: Seq<char>,
    end: Seq<char>,
    key: Seq<char>,
) -> ScanView
    decreases i,
{
    if i <= 0 {
        st
    } else {
        scan_line(scan_from(st, lines, i - 1, start, end, key), lines[i - 1], start, end, key)
    }
}

proof fn lemma_scan_from_initial(lines: Seq<Seq<char>>, i: int, start: Seq<char>, end: Seq<char>, key: Seq<char>)
    ensures
        scan_lines(lines, i, start, end, key) == scan_from(initial_scan(), lines, i, start, end, key),
    decreases i,
{
    if i > 0 {
        lemma_scan_from_initial(lines, i - 1, start, end, key);
    }
}

proof fn lemma_scan_append(
    st: ScanView,
    a: Seq<Seq<char>>,
    b: Seq<Seq<char>>,
    j: int,
    start: Seq<char>,
    end: Seq<char>,
    key: Seq<char>,
)
    requires
        0 <= j <= b.len(),
    ensures
        scan_from(st, a + b, a.len() + j, start, end, key) == scan_from(
            scan_from(st, a, a.len() as int, start, end, key),
            b,
            j,
            start,
            end,
            key,
        ),
    decreases j,
{
    if j > 0 {
        lemma_scan_append(st, a, b, j - 1, start, end, key);
        assert((a + b)[a.len() + j - 1] == b[j - 1]);
    } else {
        lemma_scan_prefix(st, a + b, a, a.len() as int, start, end, key);
    }
}

proof fn lemma_scan_prefix(
    st: ScanView,
    x: Seq<Seq<char>>,
    y: Seq<Seq<char>>,
    i: int,
    start: Seq<char>,
    end: Seq<char>,
    key: Seq<char>,
)
    requires
        0 <= i <= x.len(),
        i <= y.len(),
        forall|k: int| 0 <= k < i ==> x[k] == y[k],
    ensures
        scan_from(st, x, i, start, end, key) == scan_from(st, y, i, start, end, key),
    decreases i,
{
    if i > 0 {
        lemma_scan_prefix(st, x, y, i - 1, start, end, key);
    }
}

/// One block written out: its opening line, its body lines, its closing line.
pub struct BlockShape {
    pub open: Seq<char>,
    pub body: Seq<Seq<char>>,
    pub close: Seq<char>,
}

pub open spec fn shape_lines(s: BlockShape) -> Seq<Seq<char>> {
    seq![s.open] + s.body + seq![s.close]
}

/// The lines of blocks written one after another.
pub open spec fn shaped_lines(bs: Seq<BlockShape>) -> Seq<Seq<char>>
    decreases bs.len(),
{
    if bs.len() == 0 {
        seq![]
    } else {
        shaped_lines(bs.drop_last()) + shape_lines(bs[bs.len() - 1])
    }
}

/// `s` opens a block named `name` without a `depends` attribute, holds body
/// lines that neither open nor close a block, and is closed by its last line.
pub open spec fn well_shaped(
    s: BlockShape,
    name: Seq<char>,
    start: Seq<char>,
    end: Seq<char>,
    key: Seq<char>,
) -> bool {
    &&& starts_with(trim(s.open), start)
    &&& lookup(attributes(s.open, start), key) == Some(name)
    &&& lookup(attributes(s.open, start), depends_key()) is None
    &&& forall|k: int|
        0 <= k < s.body.len() ==> !starts_with(trim(#[trigger] s.body[k]), start) && trim(s.body[k]) != end
    &&& !starts_with(trim(s.close), start)
    &&& trim(s.close) == end
}

/// Between blocks: nothing open, no pending text or attributes.
pub open spec fn at_rest(st: ScanView) -> bool {
    !st.open && st.value == Seq::<char>::empty() && st.props == Seq::<(Seq<char>, Seq<char>)>::empty()
}

proof fn lemma_one_block(
    st: ScanView,
    s: BlockShape,
    name: Seq<char>,
    start: Seq<char>,
    end: Seq<char>,
    key: Seq<char>,
)
    requires
        at_rest(st),
        well_shaped(s, name, start, end, key),
    ensures
        ({
            let r = scan_from(st, shape_lines(s), shape_lines(s).len() as int, start, end, key);
            &&& at_rest(r)
            &&& r.blocks.len() == st.blocks.len() + 1
            &&& r.blocks.take(st.blocks.len() as int) == st.blocks
            &&& r.blocks[st.blocks.len() as int].name == name
            &&& r.blocks[st.blocks.len() as int].deps == st.deps
            &&& r.deps == add_dep(st.deps, name)
        }),
{
    let lines = shape_lines(s);
    let props = attributes(s.open, start);
    assert(lines[0] == s.open);
    assert(scan_from(st, lines, 0, start, end, key) == st);
    let opened = scan_from(st, lines, 1, start, end, key);
    assert(opened.open && opened.name == name && opened.props == props && opened.blocks == st.blocks
        && opened.deps == st.deps);
    assert forall|j: int| 0 <= j <= s.body.len() implies {
        let m = #[trigger] scan_from(st, lines, 1 + j, start, end, key);
        m.open && m.name == name && m.props == props && m.blocks == st.blocks && m.deps == st.deps
    } by {
        lemma_body_keeps(st, s, name, start, end, key, j);
    }
    let before = scan_from(st, lines, 1 + s.body.len() as int, start, end, key);
    assert(lines[1 + s.body.len() as int] == s.close);
    assert(declared(props) == Seq::<Seq<char>>::empty());
    assert(merge(st.deps, declared(props)) == st.deps);
    let r = scan_from(st, lines, lines.len() as int, start, end, key);
    assert(r.blocks == st.blocks.push(block_of(before, name)));
    assert(r.blocks.take(st.blocks.len() as int) =~= st.blocks);
}

proof fn lemma_body_keeps(
    st: ScanView,
    s: BlockShape,
    name: Seq<char>,
    start: Seq<char>,
    end: Seq<char>,
    key: Seq<char>,
    j: int,
)
    requires
        at_rest(st),
        well_shaped(s, name, start, end, key),
        0 <= j <= s.body.len(),
    ensures
        ({
            let m = scan_from(st, shape_lines(s), 1 + j, start, end, key);
            m.open && m.name == name && m.props == attributes(s.open, start) && m.blocks == st.blocks
                && m.deps == st.deps
        }),
    decreases j,
{
    let lines = shape_lines(s);
    assert(scan_from(st, lines, 0, start, end, key) == st);
    assert(lines[0] == s.open);
    if j > 0 {
        lemma_body_keeps(st, s, name, start, end, key, j - 1);
        assert(lines[j] == s.body[j - 1]);
        let b = s.body[j - 1];
        assert(!starts_with(trim(b), start) && trim(b) != end);
    }
}

proof fn lemma_shaped_scan(
    bs: Seq<BlockShape>,
    names: Seq<Seq<char>>,
    start: Seq<char>,
    end: Seq<char>,
    key: Seq<char>,
)
    requires
        bs.len() == names.len(),
        names.no_duplicates(),
        forall|i: int| 0 <= i < bs.len() ==> well_shaped(#[trigger] bs[i], names[i], start, end, key),
    ensures
        ({
            let r = scan_from(initial_scan(), shaped_lines(bs), shaped_lines(bs).len() as int, start, end, key);
            &&& at_rest(r)
            &&& r.deps == names
            &&& r.blocks.len() == bs.len()
            &&& forall|i: int| 0 <= i < bs.len() ==> #[trigger] r.blocks[i].name == names[i] && r.blocks[i].deps
                == names.take(i)
        }),
    decreases bs.len(),
{
    if bs.len() == 0 {
        assert(names =~= Seq::<Seq<char>>::empty());
    } else {
        let init = bs.drop_last();
        let ninit = names.drop_last();
        let n = bs.len() - 1;
        assert forall|i: int| 0 <= i < init.len() implies well_shaped(#[trigger] init[i], ninit[i], start, end, key) by {
            assert(init[i] == bs[i]);
        }
        assert(ninit.no_duplicates()) by {
            assert forall|p: int, q: int| 0 <= p < ninit.len() && 0 <= q < ninit.len() && p != q implies ninit[p] != ninit[q] by {
                assert(ninit[p] == names[p] && ninit[q] == names[q]);
            }
        }
        lemma_shaped_scan(init, ninit, start, end, key);
        let a = shaped_lines(init);
        let b = shape_lines(bs[n]);
        let mid = scan_from(initial_scan(), a, a.len() as int, start, end, key);
        lemma_scan_append(initial_scan(), a, b, b.len() as int, start, end, key);
        assert(well_shaped(bs[n], names[n], start, end, key));
        lemma_one_block(mid, bs[n], names[n], start, end, key);
        let r = scan_from(mid, b, b.len() as int, start, end, key);
        assert(!ninit.contains(names[n])) by {
            if ninit.contains(names[n]) {
                let p = choose|p: int| 0 <= p < ninit.len() && ninit[p] == names[n];
                assert(names[p] == names[n]);
            }
        }
        assert(r.deps =~= names);
        assert forall|i: int| 0 <= i < bs.len() implies #[trigger] r.blocks[i].name == names[i] && r.blocks[i].deps
            == names.take(i) by {
            if i < n {
                assert(r.blocks[i] == r.blocks.take(n)[i]);
                assert(mid.blocks[i].name == ninit[i]);
                assert(ninit.take(i) =~= names.take(i));
            } else {
                assert(ninit =~= names.take(i));
            }
        }
    }
}

/// A file whose lines are `N` blocks, each opened by a line naming it
/// (the names all different) and declaring no `depends`, and closed by an
/// end line, parses into exactly those `N` blocks in order, block `i` named
/// by its opening line and depending on exactly the blocks before it.
pub proof fn lemma_chain_of_shaped_file(
    content: Seq<char>,
    bs: Seq<BlockShape>,
    names: Seq<Seq<char>>,
    start: Seq<char>,
    end: Seq<char>,
    key: Seq<char>,
)
    requires
        lines_of(content) == shaped_lines(bs),
        bs.len() == names.len(),
        names.no_duplicates(),
        forall|i: int| 0 <= i < bs.len() ==> well_shaped(#[trigger] bs[i], names[i], start, end, key),
    ensures
        parse_blocks(content, start, end, key).len() == names.len(),
        forall|i: int|
            0 <= i < names.len() ==> #[trigger] parse_blocks(content, start, end, key)[i].name == names[i]
                && parse_blocks(content, start, end, key)[i].deps == names.take(i),
{
    let lines = lines_of(content);
    lemma_scan_from_initial(lines, lines.len() as int, start, end, key);
    lemma_shaped_scan(bs, names, start, end, key);
    let st = scan_lines(lines, lines.len() as int, start, end, key);
    assert(trim(st.value) == Seq::<char>::empty()) by {
        assert(trim_start(Seq::<char>::empty()) == Seq::<char>::empty());
        assert(trim_end(Seq::<char>::empty()) == Seq::<char>::empty());
    }
}

/// The text of `N` well-shaped blocks, each line ended by a newline, parses
/// into exactly those blocks: block `i` bears its opening line's name and
/// depends on exactly the blocks before it.
pub proof fn lemma_chain_of_written_blocks(
    bs: Seq<BlockShape>,
    names: Seq<Seq<char>>,
    start: Seq<char>,
    end: Seq<char>,
    key: Seq<char>,
)
    requires
        bs.len() == names.len(),
        names.no_duplicates(),
        forall|i: int| 0 <= i < bs.len() ==> well_shaped(#[trigger] bs[i], names[i], start, end, key),
        forall|i: int| 0 <= i < shaped_lines(bs).len() ==> plain_line(#[trigger] shaped_lines(bs)[i]),
    ensures
        parse_blocks(joined_lines(shaped_lines(bs)), start, end, key).len() == names.len(),
        forall|i: int|
            0 <= i < names.len() ==> #[trigger] parse_blocks(joined_lines(shaped_lines(bs)), start, end, key)[i].name
                == names[i] && parse_blocks(joined_lines(shaped_lines(bs)), start, end, key)[i].deps
                == names.take(i),
{
    lemma_lines_of_joined(shaped_lines(bs));
    lemma_chain_of_shaped_file(joined_lines(shaped_lines(bs)), bs, names, start, end, key);
}

struct Scanner {
    blocks: Vec<Stmt>,
    deps: Vec<String>,
    value: Vec<char>,
    props: Vec<(String, String)>,
    open: bool,
    counter: usize,
    name: String,
}

impl View for Scanner {
    type V = ScanView;

    closed spec fn view(&self) -> ScanView {
        ScanView {
            blocks: block_views(self.blocks@),
            deps: string_views(self.deps@),
            value: self.value@,
            props: pair_views(self.props@),
            open: self.open,
            counter: self.counter as nat,
            name: self.name@,
        }
    }
}

fn lookup_prop(props: &Vec<(String, String)>, key: &String) -> (r: Option<String>)
    ensures
        r matches Some(v) ==> lookup(pair_views(props@), key@) == Some(v@),
        r is None ==> lookup(pair_views(props@), key@) is None,
{
    let mut i = props.len();
    proof {
        assert(pair_views(props@).take(i as int) =~= pair_views(props@));
    }
    while i > 0
        invariant
            i <= props@.len(),
            lookup(pair_views(props@), key@) == lookup(pair_views(props@).take(i as int), key@),
        decreases i,
    {
        let ghost t = pair_views(props@).take(i as int);
        proof {
            assert(t.drop_last() =~= pair_views(props@).take(i - 1));
        }
        if props[i - 1].0 == *key {
            return Some(props[i - 1].1.clone());
        }
        i = i - 1;
    }
    None
}

fn attributes_of_line(line: &Vec<char>, start: &Vec<char>) -> (r: Vec<(String, String)>)
    ensures
        pair_views(r@) == attributes(line@, start@),
{
    let body = strip_repeated_chars(line, start);
    let toks = split_ws_chars(&body);
    let mut out: Vec<(String, String)> = Vec::new();
    for i in 0..toks.len()
        invariant
            views(toks@) == split_ws(strip_repeated(line@, start@)),
            pair_views(out@) == attributes_of_tokens(views(toks@).take(i as int)),
    {
        let parts = split_on_chars(&toks[i], '=');
        let ghost o0 = out@;
        proof {
            assert(views(toks@).take(i + 1).drop_last() =~= views(toks@).take(i as int));
        }
        if parts.len() >= 2 {
            let k = string_of(&parts[0]);
            let v = string_of(&parts[1]);
            out.push((k, v));
            proof {
                assert(views(parts@)[0] == parts@[0]@);
                assert(pair_views(out@) =~= pair_views(o0).push((k@, v@)));
            }
        }
    }
    proof {
        assert(views(toks@).take(toks@.len() as int) =~= views(toks@));
    }
    out
}

pub(crate) fn add_dependency(deps: &mut Vec<String>, d: &String)
    ensures
        string_views(final(deps)@) == add_dep(string_views(old(deps)@), d@),
{
    let mut i: usize = 0;
    while i < deps.len()
        invariant
            i <= deps@.len(),
            deps@ == old(deps)@,
            forall|j: int| 0 <= j < i ==> deps@[j]@ != d@,
        decreases deps@.len() - i,
    {
        if deps[i] == *d {
            proof {
                assert(string_views(deps@)[i as int] == d@);
            }
            return;
        }
        i = i + 1;
    }
    proof {
        assert(!string_views(deps@).contains(d@)) by {
            if string_views(deps@).contains(d@) {
                let j = choose|j: int| 0 <= j < deps@.len() && string_views(deps@)[j] == d@;
                assert(deps@[j]@ == d@);
            }
        }
    }
    deps.push(d.clone());
    proof {
        assert(string_views(deps@) =~= string_views(old(deps)@).push(d@));
    }
}

fn clone_strings(v: &Vec<String>) -> (r: Vec<String>)
    ensures
        r@ == v@,
{
    let mut r: Vec<String> = Vec::new();
    for i in 0..v.len()
        invariant
            r@ == v@.take(i as int),
    {
        r.push(v[i].clone());
        proof {
            assert(r@ =~= v@.take(i + 1));
        }
    }
    proof {
        assert(v@.take(v@.len() as int) =~= v@);
    }
    r
}

fn clone_pairs(v: &Vec<(String, String)>) -> (r: Vec<(String, String)>)
    ensures
        r@ == v@,
{
    let mut r: Vec<(String, String)> = Vec::new();
    for i in 0..v.len()
        invariant
            r@ == v@.take(i as int),
    {
        let p = (v[i].0.clone(), v[i].1.clone());
        r.push(p);
        proof {
            assert(r@ =~= v@.take(i + 1));
        }
    }
    proof {
        assert(v@.take(v@.len() as int) =~= v@);
    }
    r
}

/// The names the `depends` attribute of `props` declares.
fn declared_dependencies(props: &Vec<(String, String)>) -> (r: Vec<String>)
    ensures
        string_views(r@) == declared(pair_views(props@)),
{
    let key = "depends".to_owned();
    proof {
        reveal_strlit("depends");
        assert(key@ =~= depends_key());
    }
    let mut out: Vec<String> = Vec::new();
    match lookup_prop(props, &key) {
        None => {
            proof {
                assert(string_views(out@) =~= seq![]);
            }
            out
        },
        Some(v) => {
            let vc = chars_of(v.as_str());
            let pieces = split_on_chars(&vc, ',');
            let ghost target = split_on(v@, ',').map_values(|t: Seq<char>| trim(t));
            for i in 0..pieces.len()
                invariant
                    views(pieces@) == split_on(v@, ','),
                    string_views(out@) == target.take(i as int),
                    target == split_on(v@, ',').map_values(|t: Seq<char>| trim(t)),
            {
                let t = trim_chars(&pieces[i]);
                let s = string_of(&t);
                let ghost o0 = out@;
                out.push(s);
                proof {
                    assert(views(pieces@)[i as int] == pieces@[i as int]@);
                    assert(target[i as int] == trim(pieces@[i as int]@));
                    assert(string_views(out@) =~= string_views(o0).push(s@));
                    assert(string_views(out@) =~= target.take(i + 1));
                }
            }
            proof {
                assert(target.take(pieces@.len() as int) =~= target);
            }
            out
        },
    }
}

fn root_name_of(n: usize) -> (r: String)
    ensures
        r@ == root_name(n as nat),
{
    let mut v: Vec<char> = Vec::new();
    v.push('r');
    v.push('o');
    v.push('o');
    v.push('t');
    push_decimal(&mut v, n);
    proof {
        assert(v@ =~= root_name(n as nat));
    }
    string_of(&v)
}

/// `deps` with every name the `depends` attribute of `props` declares added.
pub(crate) fn with_declared(deps: Vec<String>, props: &Vec<(String, String)>) -> (r: Vec<String>)
    ensures
        string_views(r@) == merge(string_views(deps@), declared(pair_views(props@))),
{
    let mut deps = deps;
    let extra = declared_dependencies(props);
    let ghost base = string_views(deps@);
    for i in 0..extra.len()
        invariant
            string_views(deps@) == merge(base, string_views(extra@).take(i as int)),
    {
        add_dependency(&mut deps, &extra[i]);
        proof {
            assert(string_views(extra@).take(i + 1).drop_last() =~= string_views(extra@).take(i as int));
        }
    }
    proof {
        assert(string_views(extra@).take(extra@.len() as int) =~= string_views(extra@));
    }
    deps
}

fn block_from(sc: &Scanner, name: String) -> (r: Stmt)
    ensures
        r@ == block_of(sc@, name@),
{
    let deps = with_declared(clone_strings(&sc.deps), &sc.props);
    let value = string_of(&trim_chars(&sc.value));
    Stmt::new(name, value, deps, clone_pairs(&sc.props))
}

fn scan_one(sc: &mut Scanner, line: &Vec<char>, start: &Vec<char>, end: &Vec<char>, key: &String)
    requires
        old(sc).counter < usize::MAX,
    ensures
        final(sc)@ == scan_line(old(sc)@, line@, start@, end@, key@),
        final(sc).counter <= old(sc).counter + 1,
{
    let ghost st = sc@;
    let ghost next = scan_line(sc@, line@, start@, end@, key@);
    let t = trim_chars(line);
    if starts_with_chars(&t, start) {
        let props = attributes_of_line(line, start);
        match lookup_prop(&props, key) {
            Some(nm) => {
                sc.name = nm;
            },
            None => {
                sc.name = root_name_of(sc.counter);
                sc.counter = sc.counter + 1;
            },
        }
        sc.props = props;
        sc.open = true;
        proof {
            assert(sc@.blocks == next.blocks);
            assert(sc@.props == next.props);
            assert(sc@.name == next.name);
            assert(sc@.counter == next.counter);
            assert(sc@ == next);
        }
    } else if crate::text::chars_equal(&t, end) {
        if sc.open {
            let name = sc.name.clone();
            let b = block_from(sc, name);
            let ghost b0 = sc.blocks@;
            sc.blocks.push(b);
            proof {
                assert(block_views(sc.blocks@) =~= block_views(b0).push(b@));
            }
            let name2 = sc.name.clone();
            add_dependency(&mut sc.deps, &name2);
            sc.value = Vec::new();
            sc.props = Vec::new();
            sc.open = false;
            proof {
                assert(pair_views(sc.props@) =~= seq![]);
                assert(sc.value@ =~= seq![]);
                assert(sc@.blocks == next.blocks);
                assert(sc@.deps == next.deps);
                assert(sc@ == next);
            }
        } else {
            let nm = root_name_of(sc.counter);
            let b = block_from(sc, nm.clone());
            let ghost b0 = sc.blocks@;
            sc.blocks.push(b);
            proof {
                assert(block_views(sc.blocks@) =~= block_views(b0).push(b@));
            }
            add_dependency(&mut sc.deps, &nm);
            sc.value = Vec::new();
            sc.counter = sc.counter + 1;
            sc.name = nm;
            proof {
                assert(sc.value@ =~= seq![]);
                assert(sc@.blocks == next.blocks);
                assert(sc@.deps == next.deps);
                assert(sc@ == next);
            }
        }
    } else {
        let mut i: usize = 0;
        let ghost v0 = sc.value@;
        while i < line.len()
            invariant
                i <= line@.len(),
                sc.value@ == v0 + line@.take(i as int),
                sc@ == (ScanView { value: sc.value@, ..st }),
            decreases line@.len() - i,
        {
            sc.value.push(line[i]);
            proof {
                assert(sc.value@ =~= v0 + line@.take(i + 1));
            }
            i = i + 1;
        }
        sc.value.push('\n');
        proof {
            assert(line@.take(line@.len() as int) =~= line@);
            assert(sc.value@ =~= st.value + line@ + seq!['\n']);
            assert(sc@ == next);
        }
    }
}

/// Splits `content` into change blocks: opened by a line whose trimmed text
/// starts with `start_delimiter`, closed by a line whose trimmed text equals
/// `end_delimiter`, named by the attribute `key` or else `root<N>`.
pub fn parse_change_stmts(content: &str, start_delimiter: &str, end_delimiter: &str, key: &str) -> (r:
    Vec<Stmt>)
    ensures
        block_views(r@) == parse_blocks(content@, start_delimiter@, end_delimiter@, key@),
        depends_on_earlier(block_views(r@)),
{
    proof {
        lemma_implicit_chain(content@, start_delimiter@, end_delimiter@, key@);
    }
    let text = chars_of(content);
    let start = chars_of(start_delimiter);
    let end = chars_of(end_delimiter);
    let key_name = key.to_owned();
    let lines = lines_chars(&text);
    let mut sc = Scanner {
        blocks: Vec::new(),
        deps: Vec::new(),
        value: Vec::new(),
        props: Vec::new(),
        open: false,
        counter: 0,
        name: String::new(),
    };
    proof {
        assert(block_views(sc.blocks@) =~= seq![]);
        assert(string_views(sc.deps@) =~= seq![]);
        assert(pair_views(sc.props@) =~= seq![]);
        assert(sc.value@ =~= seq![]);
        assert(sc@ == initial_scan());
    }
    for i in 0..lines.len()
        invariant
            views(lines@) == lines_of(content@),
            start@ == start_delimiter@,
            end@ == end_delimiter@,
            key_name@ == key@,
            sc.counter <= i,
            sc@ == scan_lines(views(lines@), i as int, start@, end@, key_name@),
    {
        scan_one(&mut sc, &lines[i], &start, &end, &key_name);
        proof {
            assert(views(lines@)[i as int] == lines@[i as int]@);
        }
    }
    let t = trim_chars(&sc.value);
    if t.len() > 0 {
        let nm = root_name_of(sc.counter);
        let b = block_from(&sc, nm);
        let ghost b0 = sc.blocks@;
        sc.blocks.push(b);
        proof {
            assert(block_views(sc.blocks@) =~= block_views(b0).push(b@));
        }
    }
    sc.blocks
}

} // verus!
