//! Character-level text primitives with exact specifications: whitespace,
//! trimming, line and token splitting, decimal rendering.

use vstd::prelude::*;

verus! {

broadcast use vstd::string::group_string_axioms;

/// The characters `char::is_whitespace` accepts (Unicode White_Space).
pub open spec fn is_space(c: char) -> bool {
    let u = c as u32;
    (0x9 <= u && u <= 0xd) || u == 0x20 || u == 0x85 || u == 0xa0 || u == 0x1680 || (0x2000 <= u
        && u <= 0x200a) || u == 0x2028 || u == 0x2029 || u == 0x202f || u == 0x205f || u == 0x3000
}

pub fn is_space_char(c: char) -> (b: bool)
    ensures
        b == is_space(c),
{
    let u = c as u32;
    (0x9 <= u && u <= 0xd) || u == 0x20 || u == 0x85 || u == 0xa0 || u == 0x1680 || (0x2000 <= u
        && u <= 0x200a) || u == 0x2028 || u == 0x2029 || u == 0x202f || u == 0x205f || u == 0x3000
}

pub open spec fn trim_start(s: Seq<char>) -> Seq<char>
    decreases s.len(),
{
    if s.len() > 0 && is_space(s[0]) {
        trim_start(s.drop_first())
    } else {
        s
    }
}

pub open spec fn trim_end(s: Seq<char>) -> Seq<char>
    decreases s.len(),
{
    if s.len() > 0 && is_space(s[s.len() - 1]) {
        trim_end(s.drop_last())
    } else {
        s
    }
}

/// Leading and trailing whitespace removed, as `str::trim` does.
pub open spec fn trim(s: Seq<char>) -> Seq<char> {
    trim_end(trim_start(s))
}

pub open spec fn starts_with(s: Seq<char>, p: Seq<char>) -> bool {
    p.len() <= s.len() && s.take(p.len() as int) == p
}

/// `s` with every leading copy of a non-empty `p` removed, as
/// `str::trim_start_matches` does.
pub open spec fn strip_repeated(s: Seq<char>, p: Seq<char>) -> Seq<char>
    decreases s.len(),
{
    if p.len() > 0 && starts_with(s, p) {
        strip_repeated(s.skip(p.len() as int), p)
    } else {
        s
    }
}

/// Finished pieces and the open piece after reading the first `i`
/// characters of `s`, splitting at `sep`; with `ws`, splitting at whitespace
/// instead and discarding empty pieces.
pub open spec fn split_acc(s: Seq<char>, i: int, sep: char, ws: bool) -> (Seq<Seq<char>>, Seq<char>)
    decreases i,
{
    if i <= 0 {
        (seq![], seq![])
    } else {
        let (done, cur) = split_acc(s, i - 1, sep, ws);
        let c = s[i - 1];
        if ws {
            if is_space(c) {
                (if cur.len() > 0 {
                    done.push(cur)
                } else {
                    done
                }, seq![])
            } else {
                (done, cur.push(c))
            }
        } else if c == sep {
            (done.push(cur), seq![])
        } else {
            (done, cur.push(c))
        }
    }
}

/// The maximal runs of non-whitespace characters, as `str::split_whitespace`
/// yields them.
pub open spec fn split_ws(s: Seq<char>) -> Seq<Seq<char>> {
    let (done, cur) = split_acc(s, s.len() as int, ' ', true);
    if cur.len() > 0 {
        done.push(cur)
    } else {
        done
    }
}

/// The pieces between occurrences of `sep`, empty ones included, as
/// `str::split` yields them.
pub open spec fn split_on(s: Seq<char>, sep: char) -> Seq<Seq<char>> {
    let (done, cur) = split_acc(s, s.len() as int, sep, false);
    done.push(cur)
}

/// One trailing carriage return removed.
pub open spec fn strip_cr(s: Seq<char>) -> Seq<char> {
    if s.len() > 0 && s[s.len() - 1] == '\r' {
        s.drop_last()
    } else {
        s
    }
}

pub open spec fn lines_acc(s: Seq<char>, i: int) -> (Seq<Seq<char>>, Seq<char>)
    decreases i,
{
    if i <= 0 {
        (seq![], seq![])
    } else {
        let (done, cur) = lines_acc(s, i - 1);
        if s[i - 1] == '\n' {
            (done.push(strip_cr(cur)), seq![])
        } else {
            (done, cur.push(s[i - 1]))
        }
    }
}

/// The lines of `s` as `str::lines` yields them: split at `\n`, a `\r`
/// right before the `\n` dropped, no empty line after a final `\n`.
pub open spec fn lines_of(s: Seq<char>) -> Seq<Seq<char>> {
    let (done, cur) = lines_acc(s, s.len() as int);
    if cur.len() > 0 {
        done.push(cur)
    } else {
        done
    }
}

/// The lines written one after another, each ended by `\n`.
pub open spec fn joined_lines(ls: Seq<Seq<char>>) -> Seq<char>
    decreases ls.len(),
{
    if ls.len() == 0 {
        seq![]
    } else {
        joined_lines(ls.drop_last()) + ls[ls.len() - 1] + seq!['\n']
    }
}

/// `l` can stand as one line: no newline in it, no carriage return at its end.
pub open spec fn plain_line(l: Seq<char>) -> bool {
    &&& forall|k: int| 0 <= k < l.len() ==> #[trigger] l[k] != '\n'
    &&& (l.len() == 0 || l[l.len() - 1] != '\r')
}

proof fn lemma_lines_acc_prefix(x: Seq<char>, y: Seq<char>, i: int)
    requires
        0 <= i <= x.len(),
        i <= y.len(),
        forall|k: int| 0 <= k < i ==> x[k] == y[k],
    ensures
        lines_acc(x, i) == lines_acc(y, i),
    decreases i,
{
    if i > 0 {
        lemma_lines_acc_prefix(x, y, i - 1);
    }
}

proof fn lemma_lines_acc_joined(ls: Seq<Seq<char>>)
    requires
        forall|i: int| 0 <= i < ls.len() ==> plain_line(#[trigger] ls[i]),
    ensures
        lines_acc(joined_lines(ls), joined_lines(ls).len() as int) == (ls, Seq::<char>::empty()),
    decreases ls.len(),
{
    if ls.len() > 0 {
        let init = ls.drop_last();
        let l = ls[ls.len() - 1];
        assert forall|i: int| 0 <= i < init.len() implies plain_line(#[trigger] init[i]) by {
            assert(init[i] == ls[i]);
        }
        lemma_lines_acc_joined(init);
        let c = joined_lines(init);
        let c2 = joined_lines(ls);
        assert(c2 == c + l + seq!['\n']);
        assert(plain_line(ls[ls.len() - 1]));
        lemma_lines_acc_prefix(c2, c, c.len() as int);
        assert forall|k: int| 0 <= k <= l.len() implies #[trigger] lines_acc(c2, c.len() + k) == (init, l.take(k)) by {
            lemma_lines_acc_steps(c, l, c2, init, k);
        }
        assert(lines_acc(c2, (c.len() + l.len()) as int) == (init, l.take(l.len() as int)));
        assert(l.take(l.len() as int) =~= l);
        assert(c2[(c.len() + l.len()) as int] == '\n');
        assert(strip_cr(l) == l);
        assert(init.push(l) =~= ls);
    }
}

proof fn lemma_lines_acc_steps(c: Seq<char>, l: Seq<char>, c2: Seq<char>, init: Seq<Seq<char>>, k: int)
    requires
        c2 == c + l + seq!['\n'],
        plain_line(l),
        lines_acc(c2, c.len() as int) == (init, Seq::<char>::empty()),
        0 <= k <= l.len(),
    ensures
        lines_acc(c2, c.len() + k) == (init, l.take(k)),
    decreases k,
{
    if k == 0 {
        assert(l.take(0) =~= Seq::<char>::empty());
    } else {
        lemma_lines_acc_steps(c, l, c2, init, k - 1);
        assert(c2[c.len() + k - 1] == l[k - 1]);
        assert(l[k - 1] != '\n');
        assert(l.take(k - 1).push(l[k - 1]) =~= l.take(k));
    }
}

/// Lines written out, each ended by `\n`, read back as themselves.
pub proof fn lemma_lines_of_joined(ls: Seq<Seq<char>>)
    requires
        forall|i: int| 0 <= i < ls.len() ==> plain_line(#[trigger] ls[i]),
    ensures
        lines_of(joined_lines(ls)) == ls,
{
    lemma_lines_acc_joined(ls);
}

pub open spec fn digit(d: nat) -> char {
    if d == 0 {
        '0'
    } else if d == 1 {
        '1'
    } else if d == 2 {
        '2'
    } else if d == 3 {
        '3'
    } else if d == 4 {
        '4'
    } else if d == 5 {
        '5'
    } else if d == 6 {
        '6'
    } else if d == 7 {
        '7'
    } else if d == 8 {
        '8'
    } else {
        '9'
    }
}

/// Decimal rendering of `n`, without leading zeros.
pub open spec fn decimal(n: nat) -> Seq<char>
    decreases n,
{
    if n < 10 {
        seq![digit(n)]
    } else {
        decimal(n / 10).push(digit(n % 10))
    }
}

pub open spec fn views(v: Seq<Vec<char>>) -> Seq<Seq<char>> {
    v.map_values(|x: Vec<char>| x@)
}

/// Relies on `String::push`: appends one character.
#[verifier::external_body]
fn push_char(s: &mut String, c: char)
    ensures
        final(s)@ == old(s)@.push(c),
{
    s.push(c)
}

pub fn chars_of(s: &str) -> (r: Vec<char>)
    ensures
        r@ == s@,
{
    let mut v: Vec<char> = Vec::new();
    for c in it: s.chars()
        invariant
            it.seq() == s@,
            v@ == s@.take(it.index()),
    {
        v.push(c);
        proof {
            assert(s@.take(it.index() + 1) =~= v@);
        }
    }
    proof {
        assert(v@ =~= s@);
    }
    v
}

pub fn string_of(v: &Vec<char>) -> (r: String)
    ensures
        r@ == v@,
{
    let mut s = String::new();
    for i in 0..v.len()
        invariant
            s@ == v@.take(i as int),
    {
        push_char(&mut s, v[i]);
        proof {
            assert(v@.take(i + 1) =~= s@);
        }
    }
    proof {
        assert(v@.take(v@.len() as int) =~= v@);
    }
    s
}

pub fn chars_equal(a: &Vec<char>, b: &Vec<char>) -> (r: bool)
    ensures
        r == (a@ == b@),
{
    if a.len() != b.len() {
        return false;
    }
    let mut i: usize = 0;
    while i < a.len()
        invariant
            a@.len() == b@.len(),
            i <= a@.len(),
            forall|j: int| 0 <= j < i ==> a@[j] == b@[j],
        decreases a@.len() - i,
    {
        if a[i] != b[i] {
            return false;
        }
        i = i + 1;
    }
    proof {
        assert(a@ =~= b@);
    }
    true
}

pub fn subrange(v: &Vec<char>, lo: usize, hi: usize) -> (r: Vec<char>)
    requires
        lo <= hi <= v@.len(),
    ensures
        r@ == v@.subrange(lo as int, hi as int),
{
    let mut r: Vec<char> = Vec::new();
    let mut i: usize = lo;
    while i < hi
        invariant
            lo <= i <= hi,
            hi <= v@.len(),
            r@ == v@.subrange(lo as int, i as int),
        decreases hi - i,
    {
        r.push(v[i]);
        proof {
            assert(v@.subrange(lo as int, i + 1) =~= r@);
        }
        i = i + 1;
    }
    r
}

proof fn lemma_trim_start_skip(s: Seq<char>, i: int)
    requires
        0 <= i < s.len(),
        is_space(s[i]),
    ensures
        trim_start(s.subrange(i, s.len() as int)) == trim_start(s.subrange(i + 1, s.len() as int)),
{
    assert(s.subrange(i, s.len() as int).drop_first() =~= s.subrange(i + 1, s.len() as int));
}

proof fn lemma_trim_end_take(s: Seq<char>, j: int)
    requires
        0 < j <= s.len(),
        is_space(s[j - 1]),
    ensures
        trim_end(s.take(j)) == trim_end(s.take(j - 1)),
{
    assert(s.take(j).drop_last() =~= s.take(j - 1));
}

pub fn trim_chars(v: &Vec<char>) -> (r: Vec<char>)
    ensures
        r@ == trim(v@),
{
    let n = v.len();
    let mut i: usize = 0;
    proof {
        assert(v@.subrange(0, n as int) =~= v@);
    }
    while i < n && is_space_char(v[i])
        invariant
            i <= n,
            n == v@.len(),
            trim_start(v@) == trim_start(v@.subrange(i as int, n as int)),
        decreases n - i,
    {
        proof {
            lemma_trim_start_skip(v@, i as int);
        }
        i = i + 1;
    }
    let ghost rest = v@.subrange(i as int, n as int);
    assert(trim_start(rest) == rest);
    let mut j: usize = n;
    proof {
        assert(rest.take((j - i) as int) =~= rest);
    }
    while j > i && is_space_char(v[j - 1])
        invariant
            i <= j <= n,
            n == v@.len(),
            rest == v@.subrange(i as int, n as int),
            trim_end(rest) == trim_end(rest.take((j - i) as int)),
        decreases j,
    {
        proof {
            lemma_trim_end_take(rest, (j - i) as int);
            assert(rest.take((j - i - 1) as int) =~= rest.take((j - i) as int).take((j - i - 1) as int));
        }
        j = j - 1;
    }
    proof {
        assert(rest.take((j - i) as int) =~= v@.subrange(i as int, j as int));
    }
    subrange(v, i, j)
}

pub fn starts_with_chars(s: &Vec<char>, p: &Vec<char>) -> (r: bool)
    ensures
        r == starts_with(s@, p@),
{
    if p.len() > s.len() {
        return false;
    }
    let mut i: usize = 0;
    while i < p.len()
        invariant
            p@.len() <= s@.len(),
            i <= p@.len(),
            forall|j: int| 0 <= j < i ==> s@[j] == p@[j],
        decreases p@.len() - i,
    {
        if s[i] != p[i] {
            proof {
                assert(s@.take(p@.len() as int)[i as int] != p@[i as int]);
            }
            return false;
        }
        i = i + 1;
    }
    proof {
        assert(s@.take(p@.len() as int) =~= p@);
    }
    true
}

pub fn strip_repeated_chars(s: &Vec<char>, p: &Vec<char>) -> (r: Vec<char>)
    ensures
        r@ == strip_repeated(s@, p@),
{
    let mut cur = subrange(s, 0, s.len());
    proof {
        assert(cur@ =~= s@);
    }
    while p.len() > 0 && starts_with_chars(&cur, p)
        invariant
            strip_repeated(s@, p@) == strip_repeated(cur@, p@),
        decreases cur@.len(),
    {
        let next = subrange(&cur, p.len(), cur.len());
        proof {
            assert(next@ =~= cur@.skip(p@.len() as int));
        }
        cur = next;
    }
    cur
}

/// Splits `s` at `sep`, or at whitespace when `ws` holds.
fn split_chars(s: &Vec<char>, sep: char, ws: bool) -> (r: (Vec<Vec<char>>, Vec<char>))
    ensures
        (views(r.0@), r.1@) == split_acc(s@, s@.len() as int, sep, ws),
{
    let mut done: Vec<Vec<char>> = Vec::new();
    let mut cur: Vec<char> = Vec::new();
    for i in 0..s.len()
        invariant
            (views(done@), cur@) == split_acc(s@, i as int, sep, ws),
    {
        let c = s[i];
        let ghost d0 = done@;
        if ws {
            if is_space_char(c) {
                if cur.len() > 0 {
                    done.push(cur);
                    proof {
                        assert(views(done@) =~= views(d0).push(split_acc(s@, i as int, sep, ws).1));
                    }
                }
                cur = Vec::new();
            } else {
                cur.push(c);
            }
        } else if c == sep {
            done.push(cur);
            proof {
                assert(views(done@) =~= views(d0).push(split_acc(s@, i as int, sep, ws).1));
            }
            cur = Vec::new();
        } else {
            cur.push(c);
        }
        proof {
            assert(cur@ =~= split_acc(s@, i + 1, sep, ws).1);
        }
    }
    (done, cur)
}

pub fn split_ws_chars(s: &Vec<char>) -> (r: Vec<Vec<char>>)
    ensures
        views(r@) == split_ws(s@),
{
    let (mut done, cur) = split_chars(s, ' ', true);
    if cur.len() > 0 {
        let ghost d0 = done@;
        done.push(cur);
        proof {
            assert(views(done@) =~= views(d0).push(cur@));
        }
    }
    done
}

pub fn split_on_chars(s: &Vec<char>, sep: char) -> (r: Vec<Vec<char>>)
    ensures
        views(r@) == split_on(s@, sep),
{
    let (mut done, cur) = split_chars(s, sep, false);
    let ghost d0 = done@;
    done.push(cur);
    proof {
        assert(views(done@) =~= views(d0).push(cur@));
    }
    done
}

pub fn lines_chars(s: &Vec<char>) -> (r: Vec<Vec<char>>)
    ensures
        views(r@) == lines_of(s@),
{
    let mut done: Vec<Vec<char>> = Vec::new();
    let mut cur: Vec<char> = Vec::new();
    for i in 0..s.len()
        invariant
            (views(done@), cur@) == lines_acc(s@, i as int),
    {
        let c = s[i];
        if c == '\n' {
            let ghost d0 = done@;
            let n = cur.len();
            let line = if n > 0 && cur[n - 1] == '\r' {
                subrange(&cur, 0, n - 1)
            } else {
                cur
            };
            proof {
                assert(line@ =~= strip_cr(lines_acc(s@, i as int).1));
            }
            done.push(line);
            proof {
                assert(views(done@) =~= views(d0).push(line@));
            }
            cur = Vec::new();
        } else {
            cur.push(c);
        }
        proof {
            assert(cur@ =~= lines_acc(s@, i + 1).1);
        }
    }
    if cur.len() > 0 {
        let ghost d0 = done@;
        done.push(cur);
        proof {
            assert(views(done@) =~= views(d0).push(cur@));
        }
    }
    done
}

fn digit_char(d: usize) -> (c: char)
    requires
        d < 10,
    ensures
        c == digit(d as nat),
{
    if d == 0 {
        '0'
    } else if d == 1 {
        '1'
    } else if d == 2 {
        '2'
    } else if d == 3 {
        '3'
    } else if d == 4 {
        '4'
    } else if d == 5 {
        '5'
    } else if d == 6 {
        '6'
    } else if d == 7 {
        '7'
    } else if d == 8 {
        '8'
    } else {
        '9'
    }
}

/// Appends the decimal digits of `n`.
pub fn push_decimal(out: &mut Vec<char>, n: usize)
    ensures
        final(out)@ == old(out)@ + decimal(n as nat),
    decreases n,
{
    if n >= 10 {
        push_decimal(out, n / 10);
    }
    out.push(digit_char(n % 10));
    proof {
        if n >= 10 {
            assert(final(out)@ =~= old(out)@ + decimal(n as nat));
        } else {
            assert(final(out)@ =~= old(out)@ + decimal(n as nat));
        }
    }
}

} // verus!
