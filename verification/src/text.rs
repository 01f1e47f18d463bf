//! Character-level text handling: whitespace, trimming, words, searching,
//! replacing, and decimal and radix numbers, each with its mathematical model
//! over `Seq<char>`.
use vstd::prelude::*;

verus! {

/// Unicode `White_Space`, the property that `char::is_whitespace` tests.
pub open spec fn is_ws(c: char) -> bool {
    let u = c as u32;
    ||| 0x9 <= u <= 0xd
    ||| u == 0x20
    ||| u == 0x85
    ||| u == 0xa0
    ||| u == 0x1680
    ||| 0x2000 <= u <= 0x200a
    ||| u == 0x2028
    ||| u == 0x2029
    ||| u == 0x202f
    ||| u == 0x205f
    ||| u == 0x3000
}

/// Whether `c` is Unicode white space.
pub fn is_whitespace(c: char) -> (b: bool)
    ensures
        b == is_ws(c),
{
    let u = c as u32;
    (0x9 <= u && u <= 0xd) || u == 0x20 || u == 0x85 || u == 0xa0 || u == 0x1680 || (0x2000 <= u
        && u <= 0x200a) || u == 0x2028 || u == 0x2029 || u == 0x202f || u == 0x205f || u == 0x3000
}

/// The number of leading characters of `s` whose white-space-ness is `ws`.
pub open spec fn span(s: Seq<char>, ws: bool) -> nat
    decreases s.len(),
{
    if s.len() > 0 && is_ws(s[0]) == ws {
        1 + span(s.drop_first(), ws)
    } else {
        0
    }
}

/// The number of trailing characters of `s` whose white-space-ness is `ws`.
pub open spec fn rspan(s: Seq<char>, ws: bool) -> nat
    decreases s.len(),
{
    if s.len() > 0 && is_ws(s.last()) == ws {
        1 + rspan(s.drop_last(), ws)
    } else {
        0
    }
}

/// `s` without its leading white space.
pub open spec fn trim_start(s: Seq<char>) -> Seq<char> {
    s.skip(span(s, true) as int)
}

/// `s` without its trailing white space.
pub open spec fn trim_end(s: Seq<char>) -> Seq<char> {
    s.take(s.len() - rspan(s, true))
}

/// `s` without leading and trailing white space, as `str::trim` gives it.
pub open spec fn trim(s: Seq<char>) -> Seq<char> {
    trim_end(trim_start(s))
}

pub proof fn lemma_span_props(s: Seq<char>, ws: bool)
    ensures
        span(s, ws) <= s.len(),
        forall|k: int| 0 <= k < span(s, ws) ==> is_ws(#[trigger] s[k]) == ws,
        span(s, ws) < s.len() ==> is_ws(s[span(s, ws) as int]) != ws,
    decreases s.len(),
{
    if s.len() > 0 && is_ws(s[0]) == ws {
        lemma_span_props(s.drop_first(), ws);
        assert forall|k: int| 0 <= k < span(s, ws) implies is_ws(#[trigger] s[k]) == ws by {
            if k > 0 {
                assert(s[k] == s.drop_first()[k - 1]);
            }
        }
    }
}

pub proof fn lemma_span_exact(s: Seq<char>, ws: bool, i: int)
    requires
        0 <= i <= s.len(),
        forall|k: int| 0 <= k < i ==> is_ws(#[trigger] s[k]) == ws,
        i == s.len() || is_ws(s[i]) != ws,
    ensures
        span(s, ws) == i,
    decreases i,
{
    if i > 0 {
        assert forall|k: int| 0 <= k < i - 1 implies is_ws(#[trigger] s.drop_first()[k]) == ws by {
            assert(s.drop_first()[k] == s[k + 1]);
        }
        lemma_span_exact(s.drop_first(), ws, i - 1);
    }
}

pub proof fn lemma_rspan_props(s: Seq<char>, ws: bool)
    ensures
        rspan(s, ws) <= s.len(),
        forall|k: int| s.len() - rspan(s, ws) <= k < s.len() ==> is_ws(#[trigger] s[k]) == ws,
        rspan(s, ws) < s.len() ==> is_ws(s[s.len() - rspan(s, ws) - 1]) != ws,
    decreases s.len(),
{
    if s.len() > 0 && is_ws(s.last()) == ws {
        lemma_rspan_props(s.drop_last(), ws);
        assert forall|k: int| s.len() - rspan(s, ws) <= k < s.len() implies is_ws(
            #[trigger] s[k],
        ) == ws by {
            if k < s.len() - 1 {
                assert(s[k] == s.drop_last()[k]);
            }
        }
        if rspan(s, ws) < s.len() {
            assert(s[s.len() - rspan(s, ws) - 1] == s.drop_last()[s.drop_last().len() - rspan(
                s.drop_last(),
                ws,
            ) - 1]);
        }
    }
}

pub proof fn lemma_rspan_exact(s: Seq<char>, ws: bool, e: int)
    requires
        0 <= e <= s.len(),
        forall|k: int| e <= k < s.len() ==> is_ws(#[trigger] s[k]) == ws,
        e == 0 || is_ws(s[e - 1]) != ws,
    ensures
        rspan(s, ws) == s.len() - e,
    decreases s.len() - e,
{
    if e < s.len() {
        assert forall|k: int| e <= k < s.drop_last().len() implies is_ws(
            #[trigger] s.drop_last()[k],
        ) == ws by {
            assert(s.drop_last()[k] == s[k]);
        }
        if e > 0 {
            assert(s.drop_last()[e - 1] == s[e - 1]);
        }
        lemma_rspan_exact(s.drop_last(), ws, e);
    }
}

/// The words of `s`: its maximal runs of non-white-space characters, in
/// order, as `str::split_whitespace` gives them.
pub open spec fn words(s: Seq<char>) -> Seq<Seq<char>>
    decreases s.len(),
{
    let t = s.skip(span(s, true) as int);
    if t.len() == 0 {
        seq![]
    } else {
        proof {
            lemma_span_props(s, true);
            lemma_span_props(t, false);
        }
        let n = span(t, false);
        seq![t.take(n as int)] + words(t.skip(n as int))
    }
}

/// The index of the first place where `p` occurs in `s`.
pub open spec fn find_seq(s: Seq<char>, p: Seq<char>) -> Option<nat>
    decreases s.len(),
{
    if p.len() <= s.len() && s.take(p.len() as int) == p {
        Some(0)
    } else if s.len() == 0 {
        None
    } else {
        match find_seq(s.drop_first(), p) {
            Some(i) => Some(i + 1),
            None => None,
        }
    }
}

/// `p` occurs in `s` at index `i`.
pub open spec fn occurs_at(s: Seq<char>, p: Seq<char>, i: int) -> bool {
    0 <= i && i + p.len() <= s.len() && s.subrange(i, i + p.len()) == p
}

pub proof fn lemma_find_seq_first(s: Seq<char>, p: Seq<char>, i: int)
    requires
        occurs_at(s, p, i),
        forall|k: int| 0 <= k < i ==> !occurs_at(s, p, k),
    ensures
        find_seq(s, p) == Some(i as nat),
    decreases i,
{
    if i == 0 {
        assert(s.take(p.len() as int) == s.subrange(0, p.len() as int));
    } else {
        assert(!occurs_at(s, p, 0));
        assert(s.take(p.len() as int) != p) by {
            if p.len() <= s.len() {
                assert(s.take(p.len() as int) =~= s.subrange(0, p.len() as int));
            }
        }
        let t = s.drop_first();
        assert(t.subrange(i - 1, i - 1 + p.len()) =~= s.subrange(i, i + p.len()));
        assert forall|k: int| 0 <= k < i - 1 implies !occurs_at(t, p, k) by {
            if occurs_at(t, p, k) {
                assert(t.subrange(k, k + p.len()) =~= s.subrange(k + 1, k + 1 + p.len()));
                assert(occurs_at(s, p, k + 1));
            }
        }
        lemma_find_seq_first(t, p, i - 1);
    }
}

pub proof fn lemma_find_seq_none(s: Seq<char>, p: Seq<char>)
    requires
        forall|k: int| 0 <= k <= s.len() ==> !occurs_at(s, p, k),
    ensures
        find_seq(s, p) == None::<nat>,
    decreases s.len(),
{
    assert(!occurs_at(s, p, 0));
    if p.len() <= s.len() && s.take(p.len() as int) == p {
        assert(s.subrange(0, p.len() as int) =~= s.take(p.len() as int));
        assert(occurs_at(s, p, 0));
    }
    if s.len() > 0 {
        let t = s.drop_first();
        assert forall|k: int| 0 <= k <= t.len() implies !occurs_at(t, p, k) by {
            if occurs_at(t, p, k) {
                assert(t.subrange(k, k + p.len()) =~= s.subrange(k + 1, k + 1 + p.len()));
                assert(occurs_at(s, p, k + 1));
            }
        }
        lemma_find_seq_none(t, p);
    }
}

pub proof fn lemma_find_seq_props(s: Seq<char>, p: Seq<char>)
    ensures
        find_seq(s, p) matches Some(i) ==> occurs_at(s, p, i as int) && forall|k: int|
            0 <= k < i ==> !occurs_at(s, p, k),
        find_seq(s, p) is None ==> forall|k: int| 0 <= k <= s.len() ==> !occurs_at(s, p, k),
    decreases s.len(),
{
    if p.len() <= s.len() && s.take(p.len() as int) == p {
        assert(s.subrange(0, p.len() as int) =~= s.take(p.len() as int));
    } else {
        assert(!occurs_at(s, p, 0)) by {
            if occurs_at(s, p, 0) {
                assert(s.subrange(0, p.len() as int) =~= s.take(p.len() as int));
            }
        }
        if s.len() > 0 {
            let t = s.drop_first();
            lemma_find_seq_props(t, p);
            assert forall|k: int| 1 <= k <= s.len() && occurs_at(s, p, k) implies occurs_at(
                t,
                p,
                k - 1,
            ) by {
                assert(t.subrange(k - 1, k - 1 + p.len()) =~= s.subrange(k, k + p.len()));
            }
            assert forall|k: int| 0 <= k <= t.len() && occurs_at(t, p, k) implies occurs_at(
                s,
                p,
                k + 1,
            ) by {
                assert(t.subrange(k, k + p.len()) =~= s.subrange(k + 1, k + 1 + p.len()));
            }
        }
    }
}

/// The characters of `s`, in order.
pub fn chars_of(s: &str) -> (v: Vec<char>)
    ensures
        v@ == s@,
{
    let mut v: Vec<char> = Vec::new();
    for c in it: s.chars()
        invariant
            v@ == it.seq().take(it.index() as int),
    {
        v.push(c);
    }
    v
}

/// Appends `c` to `s`.
#[verifier::external_body]
pub(crate) fn push_char(s: &mut String, c: char)
    ensures
        final(s)@ == old(s)@.push(c),
{
    s.push(c);
}

/// The string made of the characters `v[from..to]`.
pub fn string_of(v: &[char], from: usize, to: usize) -> (s: String)
    requires
        from <= to <= v@.len(),
    ensures
        s@ == v@.subrange(from as int, to as int),
{
    let mut s = String::new();
    let mut i = from;
    while i < to
        invariant
            from <= i <= to <= v@.len(),
            s@ == v@.subrange(from as int, i as int),
        decreases to - i,
    {
        push_char(&mut s, v[i]);
        assert(v@.subrange(from as int, i + 1) =~= v@.subrange(from as int, i as int).push(
            v@[i as int],
        ));
        i = i + 1;
    }
    s
}

/// The bounds `(start, end)` of `trim(v[from..to])` within `v`.
pub fn trim_bounds(v: &[char], from: usize, to: usize) -> (r: (usize, usize))
    requires
        from <= to <= v@.len(),
    ensures
        from <= r.0 <= r.1 <= to,
        v@.subrange(r.0 as int, r.1 as int) == trim(v@.subrange(from as int, to as int)),
{
    let ghost s = v@.subrange(from as int, to as int);
    let mut a = from;
    while a < to && is_whitespace(v[a])
        invariant
            from <= a <= to <= v@.len(),
            forall|k: int| from <= k < a ==> is_ws(#[trigger] v@[k]),
        decreases to - a,
    {
        a = a + 1;
    }
    proof {
        lemma_span_exact(s, true, a - from);
    }
    let ghost t = s.skip(a - from);
    assert(t =~= v@.subrange(a as int, to as int));
    let mut e = to;
    while e > a && is_whitespace(v[e - 1])
        invariant
            a <= e <= to <= v@.len(),
            forall|k: int| e <= k < to ==> is_ws(#[trigger] v@[k]),
        decreases e,
    {
        e = e - 1;
    }
    proof {
        assert forall|k: int| e - a <= k < t.len() implies is_ws(#[trigger] t[k]) by {
            assert(t[k] == v@[a + k]);
        }
        if e > a {
            assert(t[e - a - 1] == v@[e - 1]);
        }
        lemma_rspan_exact(t, true, e - a);
        assert(v@.subrange(a as int, e as int) =~= t.take(t.len() - rspan(t, true)));
    }
    (a, e)
}

/// `s` without leading and trailing white space.
pub fn trim_str(s: &str) -> (r: String)
    ensures
        r@ == trim(s@),
{
    let v = chars_of(s);
    let (a, e) = trim_bounds(v.as_slice(), 0, v.len());
    assert(v@.subrange(0, v@.len() as int) =~= v@);
    string_of(v.as_slice(), a, e)
}

/// Whether `p` occurs in `v` at index `i`.
pub fn matches_at(v: &[char], p: &[char], i: usize) -> (b: bool)
    requires
        i <= v@.len(),
    ensures
        b == occurs_at(v@, p@, i as int),
{
    let n = v.len();
    if p.len() > n - i {
        return false;
    }
    let mut j: usize = 0;
    while j < p.len()
        invariant
            n == v@.len(),
            i + p@.len() <= n,
            j <= p@.len(),
            forall|k: int| 0 <= k < j ==> v@[i + k] == p@[k],
        decreases p@.len() - j,
    {
        if v[i + j] != p[j] {
            assert(v@.subrange(i as int, i + p@.len())[j as int] != p@[j as int]);
            return false;
        }
        j = j + 1;
    }
    assert(v@.subrange(i as int, i + p@.len()) =~= p@);
    true
}

/// The index of the first occurrence of `p` in `v[from..]`, counted from `from`.
pub fn find_from(v: &[char], p: &[char], from: usize) -> (r: Option<usize>)
    requires
        from <= v@.len(),
    ensures
        r is None <==> find_seq(v@.skip(from as int), p@) is None,
        r matches Some(i) ==> from + i <= v@.len() && find_seq(v@.skip(from as int), p@) == Some(
            i as nat,
        ),
{
    let ghost s = v@.skip(from as int);
    let mut i = from;
    while i <= v.len()
        invariant
            from <= i <= v@.len() + 1,
            s == v@.skip(from as int),
            forall|k: int| 0 <= k < i - from ==> !occurs_at(s, p@, k),
        decreases v@.len() + 1 - i,
    {
        let m = matches_at(v, p, i);
        proof {
            if occurs_at(s, p@, i - from) {
                assert(s.subrange(i - from, i - from + p@.len()) =~= v@.subrange(
                    i as int,
                    i + p@.len(),
                ));
            }
            if occurs_at(v@, p@, i as int) {
                assert(s.subrange(i - from, i - from + p@.len()) =~= v@.subrange(
                    i as int,
                    i + p@.len(),
                ));
            }
        }
        if m {
            proof {
                lemma_find_seq_first(s, p@, i - from);
            }
            return Some(i - from);
        }
        if i == v.len() {
            proof {
                lemma_find_seq_none(s, p@);
            }
            return None;
        }
        i = i + 1;
    }
    proof {
        lemma_find_seq_none(s, p@);
    }
    None
}

/// Each string's characters.
pub open spec fn views(v: Seq<String>) -> Seq<Seq<char>> {
    v.map_values(|w: String| w@)
}

pub proof fn lemma_words_step(s: Seq<char>, i: int, a: int, e: int)
    requires
        0 <= i <= a < e <= s.len(),
        forall|k: int| i <= k < a ==> is_ws(#[trigger] s[k]),
        forall|k: int| a <= k < e ==> !is_ws(#[trigger] s[k]),
        e == s.len() || is_ws(s[e]),
        !is_ws(s[a]),
    ensures
        words(s.skip(i)) =~= seq![s.subrange(a, e)] + words(s.skip(e)),
{
    let x = s.skip(i);
    assert forall|k: int| 0 <= k < a - i implies is_ws(#[trigger] x[k]) by {
        assert(x[k] == s[i + k]);
    }
    assert(x[a - i] == s[a]);
    lemma_span_exact(x, true, a - i);
    let t = x.skip(a - i);
    assert(t =~= s.skip(a));
    assert forall|k: int| 0 <= k < e - a implies !is_ws(#[trigger] t[k]) by {
        assert(t[k] == s[a + k]);
    }
    if e < s.len() {
        assert(t[e - a] == s[e]);
    }
    lemma_span_exact(t, false, e - a);
    assert(t.take(e - a) =~= s.subrange(a, e));
    assert(t.skip(e - a) =~= s.skip(e));
}

pub proof fn lemma_words_end(s: Seq<char>, i: int)
    requires
        0 <= i <= s.len(),
        forall|k: int| i <= k < s.len() ==> is_ws(#[trigger] s[k]),
    ensures
        words(s.skip(i)) =~= Seq::<Seq<char>>::empty(),
{
    let x = s.skip(i);
    assert forall|k: int| 0 <= k < x.len() implies is_ws(#[trigger] x[k]) by {
        assert(x[k] == s[i + k]);
    }
    lemma_span_exact(x, true, x.len() as int);
}

/// The words of `s`, as `str::split_whitespace` yields them.
pub fn split_words(s: &str) -> (r: Vec<String>)
    ensures
        views(r@) == words(s@),
{
    let v = chars_of(s);
    let n = v.len();
    let mut out: Vec<String> = Vec::new();
    let mut i: usize = 0;
    assert(v@.skip(0) =~= v@);
    loop
        invariant
            n == v@.len(),
            v@ == s@,
            i <= n,
            words(v@) =~= views(out@) + words(v@.skip(i as int)),
        decreases n - i,
    {
        let mut a = i;
        while a < n && is_whitespace(v[a])
            invariant
                n == v@.len(),
                i <= a <= n,
                forall|k: int| i <= k < a ==> is_ws(#[trigger] v@[k]),
            decreases n - a,
        {
            a = a + 1;
        }
        if a == n {
            proof {
                lemma_words_end(v@, i as int);
            }
            assert(views(out@) + Seq::<Seq<char>>::empty() =~= views(out@));
            assert(words(v@) == views(out@));
            return out;
        }
        let mut e = a;
        while e < n && !is_whitespace(v[e])
            invariant
                n == v@.len(),
                a <= e <= n,
                forall|k: int| a <= k < e ==> !is_ws(#[trigger] v@[k]),
            decreases n - e,
        {
            e = e + 1;
        }
        proof {
            lemma_words_step(v@, i as int, a as int, e as int);
        }
        let w = string_of(v.as_slice(), a, e);
        let ghost before = out@;
        out.push(w);
        assert(views(out@) =~= views(before).push(w@));
        i = e;
    }
}

/// `s` with every occurrence of `p`, taken from left to right without
/// overlap, replaced by `r`, as `str::replace` gives it.
pub open spec fn replace_all(s: Seq<char>, p: Seq<char>, r: Seq<char>) -> Seq<char>
    decreases s.len(),
{
    if s.len() == 0 {
        seq![]
    } else if p.len() > 0 && occurs_at(s, p, 0) {
        r + replace_all(s.skip(p.len() as int), p, r)
    } else {
        seq![s[0]] + replace_all(s.drop_first(), p, r)
    }
}

/// `s` with every occurrence of `p` replaced by `r`.
pub fn replace_str(s: &str, p: &str, r: &str) -> (out: String)
    requires
        p@.len() > 0,
    ensures
        out@ == replace_all(s@, p@, r@),
{
    let v = chars_of(s);
    let pv = chars_of(p);
    let n = v.len();
    let mut out = String::new();
    let mut i: usize = 0;
    assert(v@.skip(0) =~= v@);
    while i < n
        invariant
            n == v@.len(),
            pv@ == p@,
            p@.len() > 0,
            i <= n,
            replace_all(v@, p@, r@) =~= out@ + replace_all(v@.skip(i as int), p@, r@),
        decreases n - i,
    {
        let ghost x = v@.skip(i as int);
        let m = matches_at(v.as_slice(), pv.as_slice(), i);
        proof {
            if occurs_at(x, p@, 0) || m {
                assert(x.subrange(0, p@.len() as int) =~= v@.subrange(i as int, i + p@.len()));
            }
        }
        if m {
            out.append(r);
            assert(x.skip(p@.len() as int) =~= v@.skip(i + p@.len()));
            i = i + pv.len();
        } else {
            push_char(&mut out, v[i]);
            assert(x.drop_first() =~= v@.skip(i + 1));
            assert(x[0] == v@[i as int]);
            i = i + 1;
        }
    }
    assert(v@.skip(n as int) =~= Seq::<char>::empty());
    out
}

/// The decimal digit for `d`.
pub open spec fn digit(d: nat) -> char {
    if d == 0 {
        '0'
    } else if d == 1 {
        '1'
    } else if d == 2 {
        '2'
    } else if d == 3 {
        '3'
    } else if d == 4 {
        '4'
    } else if d == 5 {
        '5'
    } else if d == 6 {
        '6'
    } else if d == 7 {
        '7'
    } else if d == 8 {
        '8'
    } else {
        '9'
    }
}

/// The decimal numeral of `n`, without leading zeros, as `{}` writes it.
pub open spec fn decimal(n: nat) -> Seq<char>
    decreases n,
{
    if n < 10 {
        seq![digit(n)]
    } else {
        decimal(n / 10).push(digit(n % 10))
    }
}

fn digit_char(d: u64) -> (c: char)
    requires
        d < 10,
    ensures
        c == digit(d as nat),
{
    if d == 0 {
        '0'
    } else if d == 1 {
        '1'
    } else if d == 2 {
        '2'
    } else if d == 3 {
        '3'
    } else if d == 4 {
        '4'
    } else if d == 5 {
        '5'
    } else if d == 6 {
        '6'
    } else if d == 7 {
        '7'
    } else if d == 8 {
        '8'
    } else {
        '9'
    }
}

/// The decimal numeral of `n`.
pub fn decimal_u64(n: u64) -> (s: String)
    ensures
        s@ == decimal(n as nat),
{
    let mut m = n;
    let mut tail: Vec<char> = Vec::new();
    while m >= 10
        invariant
            decimal(n as nat) =~= decimal(m as nat) + tail@,
        decreases m,
    {
        let c = digit_char(m % 10);
        tail.insert(0, c);
        m = m / 10;
    }
    let c = digit_char(m);
    tail.insert(0, c);
    string_of(tail.as_slice(), 0, tail.len())
}

/// The numeral of a signed number: a minus sign before the digits of its
/// magnitude when it is negative.
pub open spec fn signed_decimal(n: int) -> Seq<char> {
    if n < 0 {
        seq!['-'] + decimal((-n) as nat)
    } else {
        decimal(n as nat)
    }
}

/// The decimal numeral of `n`, with a minus sign when negative.
pub fn decimal_i64(n: i64) -> (s: String)
    ensures
        s@ == signed_decimal(n as int),
{
    if n < 0 {
        let mag: u64 = (0i128 - (n as i128)) as u64;
        let mut s = String::new();
        push_char(&mut s, '-');
        let d = decimal_u64(mag);
        s.append(d.as_str());
        s
    } else {
        decimal_u64(n as u64)
    }
}

/// The value of `c` as a digit in base `radix`, as `char::to_digit` gives it.
pub open spec fn digit_value(c: char, radix: nat) -> Option<nat> {
    let u = c as u32;
    let d: int = if 0x30 <= u <= 0x39 {
        u - 0x30
    } else if 0x61 <= u <= 0x7a {
        u - 0x61 + 10
    } else if 0x41 <= u <= 0x5a {
        u - 0x41 + 10
    } else {
        36
    };
    if d < radix {
        Some(d as nat)
    } else {
        None
    }
}

/// The value of the digit string `s` in base `radix`, if every character of it
/// is a digit of that base.
pub open spec fn digits_value(s: Seq<char>, radix: nat) -> Option<nat>
    decreases s.len(),
{
    if s.len() == 0 {
        Some(0)
    } else {
        match (digits_value(s.drop_last(), radix), digit_value(s.last(), radix)) {
            (Some(v), Some(d)) => Some(v * radix + d),
            _ => None,
        }
    }
}

/// What `u64::from_str_radix(s, radix)` gives: a non-empty string of digits,
/// after an optional `+`, whose value fits in a `u64`.
pub open spec fn parse_radix(s: Seq<char>, radix: nat) -> Option<u64> {
    let body = if s.len() > 0 && s[0] == '+' {
        s.drop_first()
    } else {
        s
    };
    if body.len() == 0 {
        None
    } else {
        match digits_value(body, radix) {
            Some(v) => if v <= u64::MAX {
                Some(v as u64)
            } else {
                None
            },
            None => None,
        }
    }
}

fn char_digit(c: char, radix: u32) -> (r: Option<u32>)
    requires
        2 <= radix <= 36,
    ensures
        r matches Some(d) ==> digit_value(c, radix as nat) == Some(d as nat),
        r is None ==> digit_value(c, radix as nat) is None,
{
    let u = c as u32;
    let d: u32 = if 0x30 <= u && u <= 0x39 {
        u - 0x30
    } else if 0x61 <= u && u <= 0x7a {
        u - 0x61 + 10
    } else if 0x41 <= u && u <= 0x5a {
        u - 0x41 + 10
    } else {
        36
    };
    if d < radix {
        Some(d)
    } else {
        None
    }
}

proof fn lemma_digits_value_grows(s: Seq<char>, radix: nat, i: int)
    requires
        radix >= 1,
        0 <= i <= s.len(),
        digits_value(s.take(i), radix) is Some,
        digits_value(s, radix) is Some,
    ensures
        digits_value(s.take(i), radix)->Some_0 <= digits_value(s, radix)->Some_0,
    decreases s.len() - i,
{
    if i < s.len() {
        assert(s.drop_last().take(i) =~= s.take(i));
        if i == s.len() - 1 {
            assert(s.take(i) =~= s.drop_last());
        } else {
            lemma_digits_value_grows(s.drop_last(), radix, i);
        }
        let v = digits_value(s.drop_last(), radix)->Some_0;
        let d = digit_value(s.last(), radix)->Some_0;
        assert(v * radix + d >= v) by (nonlinear_arith)
            requires
                radix >= 1,
                v >= 0,
                d >= 0,
        ;
    } else {
        assert(s.take(i) =~= s);
    }
}

/// The number that `s` writes in base `radix`, as `u64::from_str_radix` reads it.
pub fn parse_u64_radix(s: &str, radix: u32) -> (r: Option<u64>)
    requires
        2 <= radix <= 36,
    ensures
        r == parse_radix(s@, radix as nat),
{
    let v = chars_of(s);
    let n = v.len();
    let mut start: usize = 0;
    if n > 0 && v[0] == '+' {
        start = 1;
    }
    let ghost body = if s@.len() > 0 && s@[0] == '+' {
        s@.drop_first()
    } else {
        s@
    };
    assert(body =~= v@.skip(start as int));
    if start == n {
        return None;
    }
    assert(parse_radix(s@, radix as nat) == parse_radix_body(body, radix as nat));
    let mut value: u64 = 0;
    let mut i = start;
    assert(body.take(0) =~= Seq::<char>::empty());
    while i < n
        invariant
            n == v@.len(),
            start <= i <= n,
            2 <= radix <= 36,
            body =~= v@.skip(start as int),
            parse_radix(s@, radix as nat) == parse_radix_body(body, radix as nat),
            digits_value(body.take(i - start), radix as nat) == Some(value as nat),
        decreases n - i,
    {
        let ghost pre = body.take(i - start);
        let ghost next = body.take(i - start + 1);
        assert(next.drop_last() =~= pre);
        assert(next.last() == v@[i as int]);
        match char_digit(v[i], radix) {
            None => {
                proof {
                    assert(digits_value(next, radix as nat) is None);
                    lemma_digits_none_extends(body, radix as nat, i - start + 1);
                    assert(parse_radix_body(body, radix as nat) is None);
                }
                return None;
            },
            Some(d) => {
                let step = value.checked_mul(radix as u64);
                match step {
                    None => {
                        proof {
                            lemma_too_big(body, radix as nat, i - start + 1, value as nat, d as nat);
                        }
                        return None;
                    },
                    Some(w) => {
                        match w.checked_add(d as u64) {
                            None => {
                                proof {
                                    lemma_too_big(body, radix as nat, i - start + 1, value as nat, d as nat);
                                }
                                return None;
                            },
                            Some(x) => {
                                value = x;
                            },
                        }
                    },
                }
            },
        }
        i = i + 1;
    }
    assert(body.take(n - start) =~= body);
    Some(value)
}

proof fn lemma_digits_none_extends(s: Seq<char>, radix: nat, i: int)
    requires
        0 <= i <= s.len(),
        digits_value(s.take(i), radix) is None,
    ensures
        digits_value(s, radix) is None,
    decreases s.len() - i,
{
    if i < s.len() {
        assert(s.drop_last().take(i) =~= s.take(i));
        if i == s.len() - 1 {
            assert(s.take(i) =~= s.drop_last());
        } else {
            lemma_digits_none_extends(s.drop_last(), radix, i);
        }
    } else {
        assert(s.take(i) =~= s);
    }
}

proof fn lemma_too_big(s: Seq<char>, radix: nat, i: int, v: nat, d: nat)
    requires
        2 <= radix,
        1 <= i <= s.len(),
        digits_value(s.take(i - 1), radix) == Some(v),
        digit_value(s[i - 1], radix) == Some(d),
        v * radix + d > u64::MAX,
    ensures
        parse_radix_body(s, radix) is None,
{
    let t = s.take(i);
    assert(t.drop_last() =~= s.take(i - 1));
    assert(t.last() == s[i - 1]);
    assert(digits_value(t, radix) == Some(v * radix + d));
    if digits_value(s, radix) is Some {
        lemma_digits_value_grows(s, radix, i);
    }
}

/// The value of the digit string `s`, where it fits in a `u64`.
pub open spec fn parse_radix_body(s: Seq<char>, radix: nat) -> Option<u64> {
    match digits_value(s, radix) {
        Some(v) => if v <= u64::MAX {
            Some(v as u64)
        } else {
            None
        },
        None => None,
    }
}

/// Whether `a` and `b` hold the same characters.
pub fn same_text(a: &str, b: &str) -> (r: bool)
    ensures
        r == (a@ == b@),
{
    let x = String::from_str(a);
    let y = String::from_str(b);
    x == y
}

proof fn lemma_digit_value(d: nat)
    requires
        d < 10,
    ensures
        digit_value(digit(d), 10) == Some(d),
        digit(d) != '+',
        !is_ws(digit(d)),
{
}

/// The decimal numeral of `n` reads back as `n`; it is not empty and every
/// character of it is a digit, so none is white space or a sign.
pub proof fn lemma_decimal_digits(n: nat)
    ensures
        digits_value(decimal(n), 10) == Some(n),
        decimal(n).len() > 0,
        decimal(n)[0] != '+',
        forall|k: int| 0 <= k < decimal(n).len() ==> !is_ws(#[trigger] decimal(n)[k]),
    decreases n,
{
    lemma_digit_value(n % 10);
    if n >= 10 {
        lemma_decimal_digits(n / 10);
        let s = decimal(n);
        assert(s.drop_last() =~= decimal(n / 10));
        assert(s.last() == digit(n % 10));
        assert(s[0] == decimal(n / 10)[0]);
        assert forall|k: int| 0 <= k < s.len() implies !is_ws(#[trigger] s[k]) by {
            if k < s.len() - 1 {
                assert(s[k] == decimal(n / 10)[k]);
            }
        }
    } else {
        let s = decimal(n);
        assert(s.drop_last() =~= Seq::<char>::empty());
        assert(digits_value(Seq::<char>::empty(), 10) == Some(0nat));
    }
}

/// The decimal numeral of a number reads back, as `u64::from_str_radix`
/// reads it in base 10, as that number.
pub proof fn law_decimal_round_trip(n: u64)
    ensures
        parse_radix(decimal(n as nat), 10) == Some(n),
{
    lemma_decimal_digits(n as nat);
}

/// The signed numeral of a number reads back as that number: a number that
/// is not negative is written as its decimal numeral, which `u64::from_str_radix`
/// reads back in base 10; a negative one as `-` and the numeral of its
/// magnitude.
pub proof fn law_signed_decimal_round_trip(n: i64)
    ensures
        n >= 0 ==> parse_radix(signed_decimal(n as int), 10) == Some(n as u64),
        n < 0 ==> signed_decimal(n as int).len() > 1 && signed_decimal(n as int)[0] == '-'
            && parse_radix(signed_decimal(n as int).drop_first(), 10) == Some((-(n as int)) as u64),
{
    if n >= 0 {
        law_decimal_round_trip(n as u64);
    } else {
        let m = (-(n as int)) as u64;
        law_decimal_round_trip(m);
        lemma_decimal_digits(m as nat);
        let s = signed_decimal(n as int);
        assert(s.drop_first() =~= decimal(m as nat));
    }
}

/// Replacing a pattern that does not occur in a text leaves the text as it
/// was.
pub proof fn law_replace_absent(s: Seq<char>, p: Seq<char>, r: Seq<char>)
    requires
        p.len() > 0,
        forall|k: int| 0 <= k <= s.len() ==> !occurs_at(s, p, k),
    ensures
        replace_all(s, p, r) == s,
    decreases s.len(),
{
    if s.len() > 0 {
        let t = s.drop_first();
        assert forall|k: int| 0 <= k <= t.len() implies !occurs_at(t, p, k) by {
            if occurs_at(t, p, k) {
                assert(t.subrange(k, k + p.len()) =~= s.subrange(k + 1, k + 1 + p.len()));
                assert(occurs_at(s, p, k + 1));
            }
        }
        law_replace_absent(t, p, r);
        assert(seq![s[0]] + t =~= s);
    }
}

/// All characters of `s` are white space.
pub open spec fn all_ws(s: Seq<char>) -> bool {
    forall|k: int| 0 <= k < s.len() ==> is_ws(#[trigger] s[k])
}

/// Trimming white space off a text framed by white space gives back the
/// text, where the text itself begins and ends with other characters.
pub proof fn lemma_trim_frame(a: Seq<char>, x: Seq<char>, b: Seq<char>)
    requires
        all_ws(a),
        all_ws(b),
        x.len() > 0,
        !is_ws(x[0]),
        !is_ws(x.last()),
    ensures
        trim(a + x + b) == x,
{
    let s = a + x + b;
    assert forall|k: int| 0 <= k < a.len() implies is_ws(#[trigger] s[k]) by {
        assert(s[k] == a[k]);
    }
    assert(s[a.len() as int] == x[0]);
    lemma_span_exact(s, true, a.len() as int);
    let t = s.skip(a.len() as int);
    assert(t =~= x + b);
    assert forall|k: int| x.len() <= k < t.len() implies is_ws(#[trigger] t[k]) by {
        assert(t[k] == b[k - x.len()]);
    }
    assert(t[x.len() - 1] == x.last());
    lemma_rspan_exact(t, true, x.len() as int);
    assert(t.take(x.len() as int) =~= x);
}

/// Each character of `trim(x)` is a character of `x`, taken in order from
/// after the leading white space.
pub proof fn lemma_trim_inside(x: Seq<char>)
    ensures
        span(x, true) + trim(x).len() <= x.len(),
        forall|k: int| 0 <= k < trim(x).len() ==> #[trigger] trim(x)[k] == x[span(x, true) + k],
{
    lemma_span_props(x, true);
    let t = x.skip(span(x, true) as int);
    lemma_rspan_props(t, true);
}

/// No character of `s` is white space.
pub open spec fn no_ws(s: Seq<char>) -> bool {
    forall|k: int| 0 <= k < s.len() ==> !is_ws(#[trigger] s[k])
}

/// The text of `lines`, one after another.
pub open spec fn joined(lines: Seq<Seq<char>>) -> Seq<char>
    decreases lines.len(),
{
    if lines.len() == 0 {
        Seq::empty()
    } else {
        lines[0] + joined(lines.drop_first())
    }
}

/// Trimming text without white space gives it back.
pub proof fn lemma_trim_no_ws(x: Seq<char>)
    requires
        no_ws(x),
    ensures
        trim(x) == x,
{
    lemma_span_exact(x, true, 0);
    assert(x.skip(0) =~= x);
    lemma_rspan_exact(x, true, x.len() as int);
    assert(x.take(x.len() as int) =~= x);
}

/// Every word is non-empty and holds no white space.
pub proof fn lemma_words_solid(s: Seq<char>)
    ensures
        forall|i: int|
            0 <= i < words(s).len() ==> (#[trigger] words(s)[i]).len() > 0 && no_ws(words(s)[i]),
    decreases s.len(),
{
    lemma_span_props(s, true);
    let t = s.skip(span(s, true) as int);
    if t.len() > 0 {
        lemma_span_props(t, true);
        lemma_span_props(t, false);
        assert(span(t, true) == 0);
        let n = span(t, false);
        let w = t.take(n as int);
        let r = t.skip(n as int);
        lemma_words_solid(r);
        assert(words(s) == seq![w] + words(r));
        assert forall|i: int| 0 <= i < words(s).len() implies (#[trigger] words(s)[i]).len() > 0
            && no_ws(words(s)[i]) by {
            if i == 0 {
                assert(words(s)[0] == w);
                assert forall|k: int| 0 <= k < w.len() implies !is_ws(#[trigger] w[k]) by {
                    assert(w[k] == t[k]);
                }
            } else {
                assert(words(s)[i] == words(r)[i - 1]);
            }
        }
    }
}

/// Where a line ends in its first `\r\n`, that is where a search for `\r\n`
/// stops in the line followed by anything.
pub proof fn lemma_line_found(l: Seq<char>, more: Seq<char>)
    requires
        l.len() >= 2,
        find_seq(l, seq!['\r', '\n']) == Some((l.len() - 2) as nat),
    ensures
        find_seq(l + more, seq!['\r', '\n']) == Some((l.len() - 2) as nat),
{
    let p = seq!['\r', '\n'];
    let s = l + more;
    let i = l.len() - 2;
    lemma_find_seq_props(l, p);
    assert(s.subrange(i, i + 2) =~= l.subrange(i, i + 2));
    assert forall|k: int| 0 <= k < i implies !occurs_at(s, p, k) by {
        assert(!occurs_at(l, p, k));
        assert(s.subrange(k, k + 2) =~= l.subrange(k, k + 2));
    }
    lemma_find_seq_first(s, p, i);
}

} // verus!
