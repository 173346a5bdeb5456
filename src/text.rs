//! Character-level text handling: Unicode whitespace, trimming, splitting a
//! line into whitespace-separated tokens, splitting a document into lines, and
//! joining pieces with a separator.

use vstd::prelude::*;

verus! {

/// The Unicode `White_Space` property (PropList.txt).
pub open spec fn is_ws(c: char) -> bool {
    let u = c as u32;
    (0x09 <= u && u <= 0x0D) || u == 0x20 || u == 0x85 || u == 0xA0 || u == 0x1680
        || (0x2000 <= u && u <= 0x200A) || u == 0x2028 || u == 0x2029 || u == 0x202F
        || u == 0x205F || u == 0x3000
}

/// Relies on `char::is_whitespace`: true exactly for the characters with the
/// Unicode `White_Space` property.
#[verifier::external_body]
fn char_is_ws(c: char) -> (r: bool)
    ensures
        r == is_ws(c),
{
    c.is_whitespace()
}

/// `s` without its leading whitespace.
pub open spec fn trim_start(s: Seq<char>) -> Seq<char>
    decreases s.len(),
{
    if s.len() > 0 && is_ws(s[0]) {
        trim_start(s.drop_first())
    } else {
        s
    }
}

/// `s` without its trailing whitespace.
pub open spec fn trim_end(s: Seq<char>) -> Seq<char>
    decreases s.len(),
{
    if s.len() > 0 && is_ws(s.last()) {
        trim_end(s.drop_last())
    } else {
        s
    }
}

/// `s` without leading and trailing whitespace.
pub open spec fn trim(s: Seq<char>) -> Seq<char> {
    trim_end(trim_start(s))
}

/// The pieces of `s` between whitespace characters, empty ones included:
/// one more piece than `s` has whitespace characters.
pub open spec fn ws_fields(s: Seq<char>) -> Seq<Seq<char>>
    decreases s.len(),
{
    if s.len() == 0 {
        seq![Seq::empty()]
    } else {
        let f = ws_fields(s.drop_last());
        if is_ws(s.last()) {
            f.push(Seq::empty())
        } else {
            f.update(f.len() - 1, f.last().push(s.last()))
        }
    }
}

/// The non-empty elements of `ps`, in order.
pub open spec fn keep_nonempty(ps: Seq<Seq<char>>) -> Seq<Seq<char>>
    decreases ps.len(),
{
    if ps.len() == 0 {
        Seq::empty()
    } else {
        let r = keep_nonempty(ps.drop_last());
        if ps.last().len() > 0 {
            r.push(ps.last())
        } else {
            r
        }
    }
}

/// The tokens of `s`: its maximal runs of non-whitespace characters.
pub open spec fn tokens(s: Seq<char>) -> Seq<Seq<char>> {
    keep_nonempty(ws_fields(s))
}

/// The pieces of `s` between newline characters, empty ones included.
pub open spec fn nl_fields(s: Seq<char>) -> Seq<Seq<char>>
    decreases s.len(),
{
    if s.len() == 0 {
        seq![Seq::empty()]
    } else {
        let f = nl_fields(s.drop_last());
        if s.last() == '\n' {
            f.push(Seq::empty())
        } else {
            f.update(f.len() - 1, f.last().push(s.last()))
        }
    }
}

/// The lines of `s`: its pieces between newlines, where a final newline
/// ends the last line rather than starting an empty one.
pub open spec fn lines_of(s: Seq<char>) -> Seq<Seq<char>> {
    let f = nl_fields(s);
    if f.last().len() == 0 {
        f.drop_last()
    } else {
        f
    }
}

/// The elements of `ps` with `sep` between each two neighbours.
pub open spec fn join(ps: Seq<Seq<char>>, sep: char) -> Seq<char>
    decreases ps.len(),
{
    if ps.len() == 0 {
        Seq::empty()
    } else if ps.len() == 1 {
        ps[0]
    } else {
        join(ps.drop_last(), sep).push(sep) + ps.last()
    }
}

/// The views of a vector of strings.
pub open spec fn views(v: Seq<String>) -> Seq<Seq<char>> {
    v.map_values(|s: String| s@)
}

/// Relies on `String::push`: appends one character.
#[verifier::external_body]
pub(crate) fn push_char(s: &mut String, c: char)
    ensures
        final(s)@ == old(s)@.push(c),
{
    s.push(c);
}

/// The characters of `s`, in order.
pub fn chars_of(s: &str) -> (r: Vec<char>)
    ensures
        r@ == s@,
{
    let mut out: Vec<char> = Vec::new();
    for c in it: s.chars()
        invariant
            out@ == it.seq().take(it.index() as int),
    {
        out.push(c);
    }
    out
}

/// The string made of `cs[lo..hi]`.
pub fn string_of(cs: &Vec<char>, lo: usize, hi: usize) -> (r: String)
    requires
        lo <= hi <= cs@.len(),
    ensures
        r@ == cs@.subrange(lo as int, hi as int),
{
    let mut out = String::new();
    let mut i: usize = lo;
    while i < hi
        invariant
            lo <= i <= hi <= cs@.len(),
            out@ == cs@.subrange(lo as int, i as int),
        decreases hi - i,
    {
        push_char(&mut out, cs[i]);
        assert(cs@.subrange(lo as int, i + 1) =~= cs@.subrange(lo as int, i as int).push(cs@[i as int]));
        i = i + 1;
    }
    out
}


proof fn lemma_ws_fields_len(s: Seq<char>)
    ensures
        ws_fields(s).len() >= 1,
    decreases s.len(),
{
    if s.len() > 0 {
        lemma_ws_fields_len(s.drop_last());
    }
}

proof fn lemma_nl_fields_len(s: Seq<char>)
    ensures
        nl_fields(s).len() >= 1,
    decreases s.len(),
{
    if s.len() > 0 {
        lemma_nl_fields_len(s.drop_last());
    }
}

proof fn lemma_trim_start_skip(s: Seq<char>, i: int)
    requires
        0 <= i <= s.len(),
        forall|j: int| 0 <= j < i ==> is_ws(#[trigger] s[j]),
    ensures
        trim_start(s) == trim_start(s.subrange(i, s.len() as int)),
    decreases i,
{
    if i > 0 {
        lemma_trim_start_skip(s.drop_first(), i - 1);
        assert(s.drop_first().subrange(i - 1, s.len() - 1) =~= s.subrange(i, s.len() as int));
    } else {
        assert(s.subrange(0, s.len() as int) =~= s);
    }
}

proof fn lemma_trim_end_skip(s: Seq<char>, i: int)
    requires
        0 <= i <= s.len(),
        forall|j: int| i <= j < s.len() ==> is_ws(#[trigger] s[j]),
    ensures
        trim_end(s) == trim_end(s.subrange(0, i)),
    decreases s.len() - i,
{
    if i < s.len() {
        lemma_trim_end_skip(s.drop_last(), i);
        assert(s.drop_last().subrange(0, i) =~= s.subrange(0, i));
    } else {
        assert(s.subrange(0, i) =~= s);
    }
}

/// The bounds of what remains of `cs` once trimmed.
pub fn trim_bounds(cs: &Vec<char>) -> (r: (usize, usize))
    ensures
        r.0 <= r.1 <= cs@.len(),
        trim(cs@) == cs@.subrange(r.0 as int, r.1 as int),
{
    let n = cs.len();
    let mut a: usize = 0;
    while a < n && char_is_ws(cs[a])
        invariant
            a <= n == cs@.len(),
            forall|j: int| 0 <= j < a ==> is_ws(#[trigger] cs@[j]),
        decreases n - a,
    {
        a = a + 1;
    }
    proof {
        lemma_trim_start_skip(cs@, a as int);
    }
    let ghost u = cs@.subrange(a as int, n as int);
    assert(trim_start(cs@) == u);
    let mut b: usize = n;
    while b > a && char_is_ws(cs[b - 1])
        invariant
            a <= b <= n == cs@.len(),
            u == cs@.subrange(a as int, n as int),
            forall|j: int| b <= j < n ==> is_ws(#[trigger] cs@[j]),
        decreases b,
    {
        b = b - 1;
    }
    proof {
        assert forall|j: int| b - a <= j < u.len() implies is_ws(#[trigger] u[j]) by {
            assert(u[j] == cs@[a + j]);
        }
        lemma_trim_end_skip(u, b - a);
        assert(u.subrange(0, b - a) =~= cs@.subrange(a as int, b as int));
    }
    (a, b)
}

/// The tokens of `cs[lo..hi]`, in order.
pub fn split_tokens(cs: &Vec<char>, lo: usize, hi: usize) -> (r: Vec<String>)
    requires
        lo <= hi <= cs@.len(),
    ensures
        views(r@) == tokens(cs@.subrange(lo as int, hi as int)),
{
    let mut out: Vec<String> = Vec::new();
    let mut cur = String::new();
    let mut i: usize = lo;
    assert(cs@.subrange(lo as int, lo as int) =~= Seq::<char>::empty());
    while i < hi
        invariant
            lo <= i <= hi <= cs@.len(),
            views(out@) == keep_nonempty(ws_fields(cs@.subrange(lo as int, i as int)).drop_last()),
            cur@ == ws_fields(cs@.subrange(lo as int, i as int)).last(),
        decreases hi - i,
    {
        let ghost p = cs@.subrange(lo as int, i as int);
        let ghost q = cs@.subrange(lo as int, i + 1);
        let ghost f = ws_fields(p);
        proof {
            lemma_ws_fields_len(p);
        }
        assert(q.drop_last() =~= p);
        assert(q.last() == cs@[i as int]);
        let c = cs[i];
        if char_is_ws(c) {
            assert(ws_fields(q).drop_last() =~= f);
            if !cur.as_str().is_empty() {
                proof {
                    assert(f.last().len() > 0);
                }
                let ghost before = views(out@);
                out.push(cur);
                assert(views(out@) =~= before.push(f.last()));
                assert(f.drop_last() =~= f.subrange(0, f.len() - 1));
                cur = String::new();
            } else {
                proof {
                    assert(f.last().len() == 0);
                }
                cur = String::new();
            }
        } else {
            assert(ws_fields(q).drop_last() =~= f.drop_last());
            push_char(&mut cur, c);
        }
        i = i + 1;
    }
    let ghost f = ws_fields(cs@.subrange(lo as int, hi as int));
    proof {
        lemma_ws_fields_len(cs@.subrange(lo as int, hi as int));
    }
    assert(f =~= f.drop_last().push(f.last()));
    if !cur.as_str().is_empty() {
        let ghost before = views(out@);
        out.push(cur);
        assert(views(out@) =~= before.push(f.last()));
    }
    out
}

/// The lines of `cs`, in order.
pub fn split_lines(cs: &Vec<char>) -> (r: Vec<String>)
    ensures
        views(r@) == lines_of(cs@),
{
    let mut out: Vec<String> = Vec::new();
    let mut cur = String::new();
    let mut i: usize = 0;
    let n = cs.len();
    assert(cs@.subrange(0, 0) =~= Seq::<char>::empty());
    while i < n
        invariant
            i <= n == cs@.len(),
            views(out@) == nl_fields(cs@.subrange(0, i as int)).drop_last(),
            cur@ == nl_fields(cs@.subrange(0, i as int)).last(),
        decreases n - i,
    {
        let ghost p = cs@.subrange(0, i as int);
        let ghost q = cs@.subrange(0, i + 1);
        let ghost f = nl_fields(p);
        proof {
            lemma_nl_fields_len(p);
        }
        assert(q.drop_last() =~= p);
        assert(q.last() == cs@[i as int]);
        let c = cs[i];
        if c == '\n' {
            assert(nl_fields(q).drop_last() =~= f);
            let ghost before = views(out@);
            out.push(cur);
            assert(views(out@) =~= before.push(f.last()));
            assert(f =~= f.drop_last().push(f.last()));
            cur = String::new();
        } else {
            assert(nl_fields(q).drop_last() =~= f.drop_last());
            push_char(&mut cur, c);
        }
        i = i + 1;
    }
    let ghost f = nl_fields(cs@);
    proof {
        lemma_nl_fields_len(cs@);
        assert(cs@.subrange(0, n as int) =~= cs@);
    }
    if !cur.as_str().is_empty() {
        let ghost before = views(out@);
        out.push(cur);
        assert(views(out@) =~= before.push(f.last()));
        assert(f =~= f.drop_last().push(f.last()));
    }
    out
}

/// The strings of `ps` with `sep` between each two neighbours.
pub fn join_strings(ps: &Vec<String>, sep: char) -> (r: String)
    ensures
        r@ == join(views(ps@), sep),
{
    let mut out = String::new();
    let mut i: usize = 0;
    while i < ps.len()
        invariant
            i <= ps@.len(),
            out@ == join(views(ps@).take(i as int), sep),
        decreases ps@.len() - i,
    {
        let ghost t = views(ps@).take(i + 1);
        assert(t.drop_last() =~= views(ps@).take(i as int));
        assert(t.last() == ps@[i as int]@);
        if i > 0 {
            push_char(&mut out, sep);
        }
        out.append(ps[i].as_str());
        i = i + 1;
    }
    assert(views(ps@).take(ps@.len() as int) =~= views(ps@));
    out
}

/// Copies of the strings `v[lo..hi]`.
pub fn clone_range(v: &Vec<String>, lo: usize, hi: usize) -> (r: Vec<String>)
    requires
        lo <= hi <= v@.len(),
    ensures
        views(r@) == views(v@).subrange(lo as int, hi as int),
{
    let mut out: Vec<String> = Vec::new();
    let mut i: usize = lo;
    while i < hi
        invariant
            lo <= i <= hi <= v@.len(),
            views(out@) == views(v@).subrange(lo as int, i as int),
        decreases hi - i,
    {
        let ghost before = views(out@);
        out.push(v[i].clone());
        assert(views(out@) =~= before.push(v@[i as int]@));
        assert(views(v@).subrange(lo as int, i + 1) =~= views(v@).subrange(lo as int, i as int).push(v@[i as int]@));
        i = i + 1;
    }
    out
}

/// No character of `t` is whitespace.
pub open spec fn no_ws(t: Seq<char>) -> bool {
    forall|j: int| 0 <= j < t.len() ==> !is_ws(#[trigger] t[j])
}

proof fn lemma_ws_fields_no_ws(s: Seq<char>)
    ensures
        forall|i: int| 0 <= i < ws_fields(s).len() ==> no_ws(#[trigger] ws_fields(s)[i]),
    decreases s.len(),
{
    lemma_ws_fields_len(s);
    if s.len() > 0 {
        let f = ws_fields(s.drop_last());
        lemma_ws_fields_no_ws(s.drop_last());
        lemma_ws_fields_len(s.drop_last());
        if !is_ws(s.last()) {
            let g = ws_fields(s);
            assert forall|i: int| 0 <= i < g.len() implies no_ws(#[trigger] g[i]) by {
                if i == f.len() - 1 {
                    assert(no_ws(f[i]));
                    assert(g[i] == f[i].push(s.last()));
                    assert forall|j: int| 0 <= j < g[i].len() implies !is_ws(#[trigger] g[i][j]) by {
                        if j < f[i].len() {
                            assert(g[i][j] == f[i][j]);
                        }
                    }
                } else {
                    assert(g[i] == f[i]);
                }
            }
        } else {
            let g = ws_fields(s);
            assert forall|i: int| 0 <= i < g.len() implies no_ws(#[trigger] g[i]) by {
                if i < f.len() {
                    assert(g[i] == f[i]);
                }
            }
        }
    }
}

proof fn lemma_keep_nonempty_shape(ps: Seq<Seq<char>>)
    requires
        forall|i: int| 0 <= i < ps.len() ==> no_ws(#[trigger] ps[i]),
    ensures
        forall|i: int|
            0 <= i < keep_nonempty(ps).len() ==> (#[trigger] keep_nonempty(ps)[i]).len() > 0
                && no_ws(keep_nonempty(ps)[i]),
    decreases ps.len(),
{
    if ps.len() > 0 {
        assert forall|i: int| 0 <= i < ps.drop_last().len() implies no_ws(
            #[trigger] ps.drop_last()[i],
        ) by {
            assert(ps.drop_last()[i] == ps[i]);
        }
        lemma_keep_nonempty_shape(ps.drop_last());
        assert(no_ws(ps[ps.len() - 1]));
        let r = keep_nonempty(ps.drop_last());
        let k = keep_nonempty(ps);
        assert forall|i: int| 0 <= i < k.len() implies (#[trigger] k[i]).len() > 0 && no_ws(k[i]) by {
            if i < r.len() {
                assert(k[i] == r[i]);
            } else {
                assert(k[i] == ps.last());
            }
        }
    }
}

/// Every token is non-empty and holds no whitespace.
pub proof fn lemma_tokens_shape(s: Seq<char>)
    ensures
        forall|i: int|
            0 <= i < tokens(s).len() ==> (#[trigger] tokens(s)[i]).len() > 0 && no_ws(
                tokens(s)[i],
            ),
{
    lemma_ws_fields_no_ws(s);
    lemma_keep_nonempty_shape(ws_fields(s));
}

/// Joining non-empty pieces starts with the first piece's first character
/// and ends with the last piece's last character.
pub proof fn lemma_join_ends(ps: Seq<Seq<char>>, sep: char)
    requires
        ps.len() > 0,
        forall|i: int| 0 <= i < ps.len() ==> (#[trigger] ps[i]).len() > 0,
    ensures
        join(ps, sep).len() > 0,
        join(ps, sep)[0] == ps[0][0],
        join(ps, sep).last() == ps.last().last(),
    decreases ps.len(),
{
    if ps.len() > 1 {
        assert(ps.drop_last()[0] == ps[0]);
        assert forall|i: int| 0 <= i < ps.drop_last().len() implies (
        #[trigger] ps.drop_last()[i]).len() > 0 by {
            assert(ps.drop_last()[i] == ps[i]);
        }
        lemma_join_ends(ps.drop_last(), sep);
        let j = join(ps.drop_last(), sep).push(sep);
        assert(join(ps, sep) == j + ps.last());
        assert((j + ps.last())[0] == j[0]);
    }
}

/// Joining two non-empty runs of pieces puts one separator between them.
pub proof fn lemma_join_concat(a: Seq<Seq<char>>, b: Seq<Seq<char>>, sep: char)
    requires
        a.len() > 0,
        b.len() > 0,
    ensures
        join(a + b, sep) == join(a, sep).push(sep) + join(b, sep),
    decreases b.len(),
{
    assert((a + b).drop_last() =~= a + b.drop_last());
    assert((a + b).last() == b.last());
    if b.len() == 1 {
        assert(a + b.drop_last() =~= a);
    } else {
        lemma_join_concat(a, b.drop_last(), sep);
        let x = join(a, sep).push(sep);
        let y = join(b.drop_last(), sep);
        assert((x + y).push(sep) + b.last() =~= x + (y.push(sep) + b.last()));
    }
}

/// Rejoining the newline-separated pieces of `s` gives `s` back.
pub proof fn lemma_join_nl_fields(s: Seq<char>)
    ensures
        join(nl_fields(s), '\n') == s,
    decreases s.len(),
{
    lemma_nl_fields_len(s);
    if s.len() == 0 {
        assert(join(nl_fields(s), '\n') =~= s);
    } else {
        let p = s.drop_last();
        let f = nl_fields(p);
        lemma_join_nl_fields(p);
        lemma_nl_fields_len(p);
        let g = nl_fields(s);
        if s.last() == '\n' {
            assert(g.drop_last() =~= f);
            assert(join(g, '\n') =~= s);
        } else if f.len() == 1 {
            assert(join(g, '\n') =~= s);
        } else {
            assert(g.drop_last() =~= f.drop_last());
            let x = join(f.drop_last(), '\n').push('\n');
            assert(x + f.last().push(s.last()) =~= (x + f.last()).push(s.last()));
            assert(join(g, '\n') =~= s);
        }
    }
}

/// A text that ends with a newline is its lines, each followed by a newline.
pub proof fn lemma_join_lines(s: Seq<char>)
    requires
        s.len() > 0,
        s.last() == '\n',
    ensures
        join(lines_of(s), '\n').push('\n') == s,
{
    let p = s.drop_last();
    lemma_join_nl_fields(p);
    lemma_nl_fields_len(p);
    assert(s =~= p.push('\n'));
    assert(nl_fields(s).drop_last() =~= nl_fields(p));
}

/// Text made only of whitespace trims to nothing.
pub proof fn lemma_trim_blank(s: Seq<char>)
    requires
        forall|j: int| 0 <= j < s.len() ==> is_ws(#[trigger] s[j]),
    ensures
        trim(s).len() == 0,
{
    lemma_trim_start_skip(s, s.len() as int);
    assert(s.subrange(s.len() as int, s.len() as int) =~= Seq::<char>::empty());
}

proof fn lemma_keep_nonempty_front_empty(f: Seq<Seq<char>>)
    ensures
        keep_nonempty(seq![Seq::<char>::empty()] + f) == keep_nonempty(f),
    decreases f.len(),
{
    let e = seq![Seq::<char>::empty()];
    if f.len() == 0 {
        assert(e + f =~= e);
        assert(e.drop_last() =~= Seq::<Seq<char>>::empty());
        assert(e.last().len() == 0);
        assert(keep_nonempty(e) == keep_nonempty(e.drop_last()));
        assert(keep_nonempty(f) =~= Seq::<Seq<char>>::empty());
    } else {
        assert((e + f).drop_last() =~= e + f.drop_last());
        assert((e + f).last() == f.last());
        lemma_keep_nonempty_front_empty(f.drop_last());
    }
}

proof fn lemma_ws_fields_front(c: char, s: Seq<char>)
    requires
        is_ws(c),
    ensures
        ws_fields(seq![c] + s) == seq![Seq::<char>::empty()] + ws_fields(s),
    decreases s.len(),
{
    let e = seq![Seq::<char>::empty()];
    if s.len() == 0 {
        assert(seq![c] + s =~= seq![c]);
        assert(seq![c].drop_last() =~= Seq::<char>::empty());
        assert(seq![c].last() == c);
        assert(ws_fields(Seq::<char>::empty()) == e);
        assert(s =~= Seq::<char>::empty());
        assert(ws_fields(seq![c]) == ws_fields(seq![c].drop_last()).push(Seq::<char>::empty()));
        assert(ws_fields(seq![c]) =~= e + ws_fields(s));
    } else {
        assert((seq![c] + s).drop_last() =~= seq![c] + s.drop_last());
        assert((seq![c] + s).last() == s.last());
        lemma_ws_fields_front(c, s.drop_last());
        lemma_ws_fields_len(s.drop_last());
        assert(ws_fields(seq![c] + s) =~= e + ws_fields(s));
    }
}

proof fn lemma_tokens_trim_start(s: Seq<char>)
    ensures
        tokens(trim_start(s)) == tokens(s),
    decreases s.len(),
{
    if s.len() > 0 && is_ws(s[0]) {
        assert(s =~= seq![s[0]] + s.drop_first());
        lemma_ws_fields_front(s[0], s.drop_first());
        lemma_keep_nonempty_front_empty(ws_fields(s.drop_first()));
        lemma_tokens_trim_start(s.drop_first());
    }
}

proof fn lemma_tokens_trim_end(s: Seq<char>)
    ensures
        tokens(trim_end(s)) == tokens(s),
    decreases s.len(),
{
    if s.len() > 0 && is_ws(s.last()) {
        let f = ws_fields(s.drop_last());
        assert(f.push(Seq::empty()).drop_last() =~= f);
        lemma_tokens_trim_end(s.drop_last());
    }
}

/// Trimming a line leaves its tokens unchanged.
pub proof fn lemma_tokens_trim(s: Seq<char>)
    ensures
        tokens(trim(s)) == tokens(s),
{
    lemma_tokens_trim_start(s);
    lemma_tokens_trim_end(trim_start(s));
}

/// No character of `t` is a newline.
pub open spec fn no_nl(t: Seq<char>) -> bool {
    forall|j: int| 0 <= j < t.len() ==> #[trigger] t[j] != '\n'
}

proof fn lemma_ws_fields_append(x: Seq<char>, w: Seq<char>)
    requires
        no_ws(w),
    ensures
        ws_fields(x + w) == ws_fields(x).update(
            ws_fields(x).len() - 1,
            ws_fields(x).last() + w,
        ),
    decreases w.len(),
{
    lemma_ws_fields_len(x);
    let f = ws_fields(x);
    if w.len() == 0 {
        assert(x + w =~= x);
        assert(f.last() + w =~= f.last());
        assert(f.update(f.len() - 1, f.last() + w) =~= f);
    } else {
        let w1 = w.drop_last();
        assert forall|j: int| 0 <= j < w1.len() implies !is_ws(#[trigger] w1[j]) by {
            assert(w1[j] == w[j]);
        }
        lemma_ws_fields_append(x, w1);
        assert((x + w).drop_last() =~= x + w1);
        assert((x + w).last() == w.last());
        assert(!is_ws(w[w.len() - 1]));
        assert((f.last() + w1).push(w.last()) =~= f.last() + w);
        assert(ws_fields(x + w) =~= f.update(f.len() - 1, f.last() + w));
    }
}

proof fn lemma_nl_fields_append(x: Seq<char>, w: Seq<char>)
    requires
        no_nl(w),
    ensures
        nl_fields(x + w) == nl_fields(x).update(
            nl_fields(x).len() - 1,
            nl_fields(x).last() + w,
        ),
    decreases w.len(),
{
    lemma_nl_fields_len(x);
    let f = nl_fields(x);
    if w.len() == 0 {
        assert(x + w =~= x);
        assert(f.last() + w =~= f.last());
        assert(f.update(f.len() - 1, f.last() + w) =~= f);
    } else {
        let w1 = w.drop_last();
        assert forall|j: int| 0 <= j < w1.len() implies #[trigger] w1[j] != '\n' by {
            assert(w1[j] == w[j]);
        }
        lemma_nl_fields_append(x, w1);
        assert((x + w).drop_last() =~= x + w1);
        assert((x + w).last() == w.last());
        assert(w[w.len() - 1] != '\n');
        assert((f.last() + w1).push(w.last()) =~= f.last() + w);
        assert(nl_fields(x + w) =~= f.update(f.len() - 1, f.last() + w));
    }
}

/// Splitting tokens joined by single spaces gives the tokens back.
pub proof fn lemma_tokens_join(ts: Seq<Seq<char>>)
    requires
        ts.len() > 0,
        forall|i: int| 0 <= i < ts.len() ==> (#[trigger] ts[i]).len() > 0 && no_ws(ts[i]),
    ensures
        tokens(join(ts, ' ')) == ts,
    decreases ts.len(),
{
    let w = ts.last();
    assert(w.len() > 0 && no_ws(w));
    if ts.len() == 1 {
        let e = Seq::<char>::empty();
        lemma_ws_fields_append(e, w);
        assert(e + w =~= w);
        assert(ws_fields(w) =~= seq![w]);
        assert(seq![w].drop_last() =~= Seq::<Seq<char>>::empty());
        assert(seq![w].last() == w);
        assert(keep_nonempty(Seq::<Seq<char>>::empty()) =~= Seq::<Seq<char>>::empty());
        assert(keep_nonempty(seq![w]) =~= seq![w]);
        assert(ts =~= seq![w]);
        assert(join(ts, ' ') == w);
        assert(tokens(w) =~= ts);
    } else {
        let t1 = ts.drop_last();
        assert forall|i: int| 0 <= i < t1.len() implies (#[trigger] t1[i]).len() > 0 && no_ws(
            t1[i],
        ) by {
            assert(t1[i] == ts[i]);
        }
        lemma_tokens_join(t1);
        let x = join(t1, ' ');
        let xs = x.push(' ');
        assert(xs.drop_last() =~= x);
        assert(ws_fields(xs) == ws_fields(x).push(Seq::empty()));
        lemma_ws_fields_append(xs, w);
        lemma_ws_fields_len(x);
        let g = ws_fields(x).push(w);
        assert(Seq::<char>::empty() + w =~= w);
        assert(ws_fields(xs + w) =~= g);
        assert(g.drop_last() =~= ws_fields(x));
        assert(join(ts, ' ') == xs + w);
        assert(tokens(join(ts, ' ')) =~= ts);
    }
}

/// Splitting newline-free pieces joined by newlines gives the pieces back.
proof fn lemma_nl_fields_join(rs: Seq<Seq<char>>)
    requires
        rs.len() > 0,
        forall|i: int| 0 <= i < rs.len() ==> no_nl(#[trigger] rs[i]),
    ensures
        nl_fields(join(rs, '\n')) == rs,
    decreases rs.len(),
{
    let w = rs.last();
    assert(no_nl(w));
    if rs.len() == 1 {
        let e = Seq::<char>::empty();
        lemma_nl_fields_append(e, w);
        assert(e + w =~= w);
        assert(nl_fields(w) =~= rs);
    } else {
        let r1 = rs.drop_last();
        assert forall|i: int| 0 <= i < r1.len() implies no_nl(#[trigger] r1[i]) by {
            assert(r1[i] == rs[i]);
        }
        lemma_nl_fields_join(r1);
        let x = join(r1, '\n');
        let xs = x.push('\n');
        assert(xs.drop_last() =~= x);
        assert(nl_fields(xs) == nl_fields(x).push(Seq::empty()));
        lemma_nl_fields_append(xs, w);
        assert(Seq::<char>::empty() + w =~= w);
        assert(join(rs, '\n') == xs + w);
        assert(nl_fields(join(rs, '\n')) =~= rs);
    }
}

/// The lines of newline-free pieces, each followed by a newline, are those
/// pieces.
pub proof fn lemma_lines_of_joined(rs: Seq<Seq<char>>)
    requires
        rs.len() > 0,
        forall|i: int| 0 <= i < rs.len() ==> no_nl(#[trigger] rs[i]),
    ensures
        lines_of(join(rs, '\n').push('\n')) == rs,
{
    lemma_nl_fields_join(rs);
    let j = join(rs, '\n');
    assert(j.push('\n').drop_last() =~= j);
    assert(nl_fields(j.push('\n')).drop_last() =~= rs);
}

/// The lines of a text hold no newline.
pub proof fn lemma_lines_no_nl(s: Seq<char>)
    ensures
        forall|i: int| 0 <= i < lines_of(s).len() ==> no_nl(#[trigger] lines_of(s)[i]),
{
    lemma_nl_fields_no_nl(s);
    lemma_nl_fields_len(s);
    let f = nl_fields(s);
    assert forall|i: int| 0 <= i < lines_of(s).len() implies no_nl(#[trigger] lines_of(s)[i]) by {
        assert(lines_of(s)[i] == f[i]);
    }
}

proof fn lemma_nl_fields_no_nl(s: Seq<char>)
    ensures
        forall|i: int| 0 <= i < nl_fields(s).len() ==> no_nl(#[trigger] nl_fields(s)[i]),
    decreases s.len(),
{
    lemma_nl_fields_len(s);
    if s.len() > 0 {
        let f = nl_fields(s.drop_last());
        lemma_nl_fields_no_nl(s.drop_last());
        lemma_nl_fields_len(s.drop_last());
        let g = nl_fields(s);
        assert forall|i: int| 0 <= i < g.len() implies no_nl(#[trigger] g[i]) by {
            if s.last() != '\n' && i == f.len() - 1 {
                assert(no_nl(f[i]));
                assert(g[i] == f[i].push(s.last()));
                assert forall|j: int| 0 <= j < g[i].len() implies #[trigger] g[i][j] != '\n' by {
                    if j < f[i].len() {
                        assert(g[i][j] == f[i][j]);
                    }
                }
            } else if i < f.len() {
                assert(g[i] == f[i]);
            }
        }
    }
}

/// Joining newline-free pieces with a separator other than a newline gives
/// newline-free text.
pub proof fn lemma_join_no_nl(ps: Seq<Seq<char>>, sep: char)
    requires
        sep != '\n',
        forall|i: int| 0 <= i < ps.len() ==> no_nl(#[trigger] ps[i]),
    ensures
        no_nl(join(ps, sep)),
    decreases ps.len(),
{
    if ps.len() == 1 {
        assert(no_nl(ps[0]));
    } else if ps.len() > 1 {
        let p1 = ps.drop_last();
        assert forall|i: int| 0 <= i < p1.len() implies no_nl(#[trigger] p1[i]) by {
            assert(p1[i] == ps[i]);
        }
        lemma_join_no_nl(p1, sep);
        let x = join(p1, sep).push(sep);
        let w = ps.last();
        assert(no_nl(w));
        assert forall|j: int| 0 <= j < (x + w).len() implies #[trigger] (x + w)[j] != '\n' by {
            if j < x.len() - 1 {
                assert((x + w)[j] == join(p1, sep)[j]);
            } else if j >= x.len() {
                assert((x + w)[j] == w[j - x.len()]);
            }
        }
    }
}

proof fn lemma_ws_fields_first(s: Seq<char>)
    requires
        s.len() > 0,
        !is_ws(s[0]),
    ensures
        ws_fields(s)[0].len() > 0,
        ws_fields(s)[0][0] == s[0],
    decreases s.len(),
{
    let p = s.drop_last();
    lemma_ws_fields_len(p);
    if p.len() == 0 {
        assert(ws_fields(p) == seq![Seq::<char>::empty()]);
        assert(ws_fields(s)[0] =~= seq![s[0]]);
    } else {
        assert(p[0] == s[0]);
        lemma_ws_fields_first(p);
        let f = ws_fields(p);
        if !is_ws(s.last()) && f.len() == 1 {
            assert(ws_fields(s)[0] == f[0].push(s.last()));
        }
    }
}

proof fn lemma_keep_nonempty_first(ps: Seq<Seq<char>>)
    requires
        ps.len() > 0,
        ps[0].len() > 0,
    ensures
        keep_nonempty(ps).len() > 0,
        keep_nonempty(ps)[0] == ps[0],
    decreases ps.len(),
{
    if ps.len() == 1 {
        assert(ps.drop_last() =~= Seq::<Seq<char>>::empty());
    } else {
        assert(ps.drop_last()[0] == ps[0]);
        lemma_keep_nonempty_first(ps.drop_last());
    }
}

/// Text that starts with a non-whitespace character has a first token that
/// starts with that character.
pub proof fn lemma_tokens_first(s: Seq<char>)
    requires
        s.len() > 0,
        !is_ws(s[0]),
    ensures
        tokens(s).len() > 0,
        tokens(s)[0].len() > 0,
        tokens(s)[0][0] == s[0],
{
    lemma_ws_fields_first(s);
    lemma_ws_fields_len(s);
    lemma_keep_nonempty_first(ws_fields(s));
}

proof fn lemma_trim_start_shape(s: Seq<char>)
    ensures
        trim_start(s).len() <= s.len(),
        trim_start(s) == s.subrange(s.len() - trim_start(s).len(), s.len() as int),
        trim_start(s).len() > 0 ==> !is_ws(trim_start(s)[0]),
    decreases s.len(),
{
    if s.len() > 0 && is_ws(s[0]) {
        lemma_trim_start_shape(s.drop_first());
        let t = trim_start(s);
        assert(s.drop_first().subrange(s.len() - 1 - t.len(), s.len() - 1) =~= s.subrange(
            s.len() - t.len(),
            s.len() as int,
        ));
    } else {
        assert(s.subrange(0, s.len() as int) =~= s);
    }
}

proof fn lemma_trim_end_shape(s: Seq<char>)
    ensures
        trim_end(s).len() <= s.len(),
        trim_end(s) == s.subrange(0, trim_end(s).len() as int),
        trim_end(s).len() > 0 ==> !is_ws(trim_end(s).last()),
    decreases s.len(),
{
    if s.len() > 0 && is_ws(s.last()) {
        lemma_trim_end_shape(s.drop_last());
        let t = trim_end(s);
        assert(s.drop_last().subrange(0, t.len() as int) =~= s.subrange(0, t.len() as int));
    } else {
        assert(s.subrange(0, s.len() as int) =~= s);
    }
}

/// Trimmed text is empty or starts and ends with non-whitespace, trims to
/// itself, and holds no newline where the text held none.
pub proof fn lemma_trim_shape(s: Seq<char>)
    ensures
        trim(s).len() > 0 ==> !is_ws(trim(s)[0]) && !is_ws(trim(s).last()),
        trim(trim(s)) == trim(s),
        no_nl(s) ==> no_nl(trim(s)),
{
    let u = trim_start(s);
    let t = trim(s);
    lemma_trim_start_shape(s);
    lemma_trim_end_shape(u);
    if t.len() > 0 {
        assert(t[0] == u[0]);
        assert(trim_start(t) == t);
        assert(trim_end(t) == t);
    }
    if no_nl(s) {
        assert forall|j: int| 0 <= j < t.len() implies #[trigger] t[j] != '\n' by {
            assert(t[j] == u[j]);
            assert(u[j] == s[s.len() - u.len() + j]);
        }
    }
}

} // verus!
