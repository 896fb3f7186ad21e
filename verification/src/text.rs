//! Character-level helpers on strings: Unicode white space, trimming,
//! splitting into words, equality and prefixes.
use vstd::prelude::*;

verus! {

/// The Unicode `White_Space` property, the set that `char::is_whitespace`
/// and `str::trim` go by.
pub open spec fn is_ws(c: char) -> bool {
    ||| ('\u{9}' <= c && c <= '\u{d}')
    ||| c == ' '
    ||| c == '\u{85}'
    ||| c == '\u{a0}'
    ||| c == '\u{1680}'
    ||| ('\u{2000}' <= c && c <= '\u{200a}')
    ||| c == '\u{2028}'
    ||| c == '\u{2029}'
    ||| c == '\u{202f}'
    ||| c == '\u{205f}'
    ||| c == '\u{3000}'
}

/// `s` without its leading white space.
pub open spec fn trim_left(s: Seq<char>) -> Seq<char>
    decreases s.len(),
{
    if s.len() > 0 && is_ws(s[0]) {
        trim_left(s.drop_first())
    } else {
        s
    }
}

/// `s` without its trailing white space.
pub open spec fn trim_right(s: Seq<char>) -> Seq<char>
    decreases s.len(),
{
    if s.len() > 0 && is_ws(s.last()) {
        trim_right(s.drop_last())
    } else {
        s
    }
}

/// `s` without leading and trailing white space.
pub open spec fn trimmed(s: Seq<char>) -> Seq<char> {
    trim_right(trim_left(s))
}

/// The run of non-white-space characters at the start of `s`.
pub open spec fn leading_word(s: Seq<char>) -> Seq<char>
    decreases s.len(),
{
    if s.len() == 0 || is_ws(s[0]) {
        Seq::empty()
    } else {
        seq![s[0]] + leading_word(s.drop_first())
    }
}

/// The maximal runs of non-white-space characters of `s`, in order.
pub open spec fn words(s: Seq<char>) -> Seq<Seq<char>>
    decreases s.len(),
{
    if s.len() == 0 {
        Seq::empty()
    } else if is_ws(s[0]) {
        words(s.drop_first())
    } else {
        let w = leading_word(s);
        proof {
            lemma_leading_word_shape(s);
        }
        seq![w] + words(s.skip(w.len() as int))
    }
}

/// The words of `ws`, each followed by a single space but the last.
pub open spec fn join_spaced(ws: Seq<Seq<char>>) -> Seq<char>
    decreases ws.len(),
{
    if ws.len() == 0 {
        Seq::empty()
    } else if ws.len() == 1 {
        ws[0]
    } else {
        join_spaced(ws.drop_last()) + seq![' '] + ws.last()
    }
}

pub proof fn lemma_leading_word_shape(s: Seq<char>)
    ensures
        leading_word(s).len() <= s.len(),
        leading_word(s) == s.take(leading_word(s).len() as int),
        forall|k: int| 0 <= k < leading_word(s).len() ==> !is_ws(#[trigger] s[k]),
        leading_word(s).len() < s.len() ==> is_ws(s[leading_word(s).len() as int]),
        s.len() > 0 && !is_ws(s[0]) ==> leading_word(s).len() >= 1,
    decreases s.len(),
{
    if s.len() > 0 && !is_ws(s[0]) {
        let t = s.drop_first();
        lemma_leading_word_shape(t);
        assert(leading_word(s) =~= s.take(leading_word(s).len() as int));
        assert forall|k: int| 0 <= k < leading_word(s).len() implies !is_ws(#[trigger] s[k]) by {
            if k > 0 {
                assert(s[k] == t[k - 1]);
            }
        }
        if leading_word(s).len() < s.len() {
            assert(s[leading_word(s).len() as int] == t[leading_word(t).len() as int]);
        }
    } else {
        assert(leading_word(s) =~= s.take(0));
    }
}

/// A run of non-white-space characters at the start of `s`, ended by white
/// space or by the end of `s`, is its leading word.
pub proof fn lemma_leading_word_is(s: Seq<char>, n: int)
    requires
        0 <= n <= s.len(),
        forall|k: int| 0 <= k < n ==> !is_ws(#[trigger] s[k]),
        n < s.len() ==> is_ws(s[n]),
    ensures
        leading_word(s) == s.take(n),
    decreases n,
{
    if n == 0 {
        assert(leading_word(s) =~= s.take(0));
    } else {
        let t = s.drop_first();
        assert forall|k: int| 0 <= k < n - 1 implies !is_ws(#[trigger] t[k]) by {
            assert(t[k] == s[k + 1]);
        }
        lemma_leading_word_is(t, n - 1);
        assert(leading_word(s) =~= s.take(n));
    }
}

/// `c` is white space: `char::is_whitespace`.
pub fn is_whitespace(c: char) -> (r: bool)
    ensures
        r == is_ws(c),
{
    ('\u{9}' <= c && c <= '\u{d}') || c == ' ' || c == '\u{85}' || c == '\u{a0}' || c
        == '\u{1680}' || ('\u{2000}' <= c && c <= '\u{200a}') || c == '\u{2028}' || c
        == '\u{2029}' || c == '\u{202f}' || c == '\u{205f}' || c == '\u{3000}'
}

/// Whether `a` and `b` hold the same characters.
pub fn same_text(a: &str, b: &str) -> (r: bool)
    ensures
        r == (a@ == b@),
{
    let n = a.unicode_len();
    if n != b.unicode_len() {
        return false;
    }
    let mut i: usize = 0;
    while i < n
        invariant
            n == a@.len() == b@.len(),
            i <= n,
            forall|k: int| 0 <= k < i ==> a@[k] == b@[k],
        decreases n - i,
    {
        if a.get_char(i) != b.get_char(i) {
            return false;
        }
        i = i + 1;
    }
    assert(a@ =~= b@);
    true
}

/// Whether `s` begins with `prefix`.
pub fn begins_with(s: &str, prefix: &str) -> (r: bool)
    ensures
        r == prefix@.is_prefix_of(s@),
{
    let n = prefix.unicode_len();
    if n > s.unicode_len() {
        return false;
    }
    let mut i: usize = 0;
    while i < n
        invariant
            n == prefix@.len() <= s@.len(),
            i <= n,
            forall|k: int| 0 <= k < i ==> prefix@[k] == s@[k],
        decreases n - i,
    {
        if prefix.get_char(i) != s.get_char(i) {
            return false;
        }
        i = i + 1;
    }
    assert(prefix@ =~= s@.subrange(0, n as int));
    true
}

proof fn lemma_trim_left_skip(s: Seq<char>, i: int)
    requires
        0 <= i <= s.len(),
        forall|k: int| 0 <= k < i ==> is_ws(#[trigger] s[k]),
    ensures
        trim_left(s) == trim_left(s.skip(i)),
    decreases i,
{
    if i > 0 {
        let t = s.drop_first();
        assert forall|k: int| 0 <= k < i - 1 implies is_ws(#[trigger] t[k]) by {
            assert(t[k] == s[k + 1]);
        }
        lemma_trim_left_skip(t, i - 1);
        assert(t.skip(i - 1) =~= s.skip(i));
    } else {
        assert(s.skip(0) =~= s);
    }
}

proof fn lemma_trim_right_take(s: Seq<char>, j: int)
    requires
        0 <= j <= s.len(),
        forall|k: int| j <= k < s.len() ==> is_ws(#[trigger] s[k]),
    ensures
        trim_right(s) == trim_right(s.take(j)),
    decreases s.len() - j,
{
    if j < s.len() {
        let t = s.drop_last();
        lemma_trim_right_take(t, j);
        assert(t.take(j) =~= s.take(j));
    } else {
        assert(s.take(j) =~= s);
    }
}

proof fn lemma_trim_left_shape(s: Seq<char>) -> (i: int)
    ensures
        0 <= i <= s.len(),
        trim_left(s) == s.skip(i),
        forall|k: int| 0 <= k < i ==> is_ws(#[trigger] s[k]),
        i < s.len() ==> !is_ws(s[i]),
    decreases s.len(),
{
    if s.len() > 0 && is_ws(s[0]) {
        let t = s.drop_first();
        let i0 = lemma_trim_left_shape(t);
        assert(t.skip(i0) =~= s.skip(i0 + 1));
        assert forall|k: int| 0 <= k < i0 + 1 implies is_ws(#[trigger] s[k]) by {
            if k > 0 {
                assert(s[k] == t[k - 1]);
            }
        }
        i0 + 1
    } else {
        assert(s.skip(0) =~= s);
        0
    }
}

proof fn lemma_trim_right_shape(s: Seq<char>) -> (j: int)
    ensures
        0 <= j <= s.len(),
        trim_right(s) == s.take(j),
        forall|k: int| j <= k < s.len() ==> is_ws(#[trigger] s[k]),
        j > 0 ==> !is_ws(s[j - 1]),
    decreases s.len(),
{
    if s.len() > 0 && is_ws(s.last()) {
        let t = s.drop_last();
        let j0 = lemma_trim_right_shape(t);
        assert(t.take(j0) =~= s.take(j0));
        assert forall|k: int| j0 <= k < s.len() implies is_ws(#[trigger] s[k]) by {
            if k < s.len() - 1 {
                assert(s[k] == t[k]);
            }
        }
        j0
    } else {
        assert(s.take(s.len() as int) =~= s);
        s.len() as int
    }
}

/// `trimmed(s)` is the part of `s` between its leading and its trailing
/// white space, the characters in between kept as they are: a run `s[i..j]`
/// with only white space outside it, and, unless all of `s` is white space,
/// neither end of it white space. When all of `s` is white space it is empty.
pub proof fn law_trimmed_is_inner_run(s: Seq<char>) -> (r: (int, int))
    ensures
        0 <= r.0 <= r.1 <= s.len(),
        trimmed(s) == s.subrange(r.0, r.1),
        forall|k: int| 0 <= k < r.0 ==> is_ws(#[trigger] s[k]),
        forall|k: int| r.1 <= k < s.len() ==> is_ws(#[trigger] s[k]),
        r.0 < r.1 ==> !is_ws(s[r.0]) && !is_ws(s[r.1 - 1]),
        (forall|k: int| 0 <= k < s.len() ==> is_ws(#[trigger] s[k])) <==> trimmed(s).len() == 0,
{
    let i = lemma_trim_left_shape(s);
    let t = s.skip(i);
    let j = lemma_trim_right_shape(t);
    assert(t.take(j) =~= s.subrange(i, i + j));
    assert forall|k: int| i + j <= k < s.len() implies is_ws(#[trigger] s[k]) by {
        assert(s[k] == t[k - i]);
    }
    if j > 0 {
        assert(s[i + j - 1] == t[j - 1]);
    }
    if i < s.len() {
        assert(t[0] == s[i]);
        if j == 0 {
            assert(is_ws(t[0]));
        }
    }
    if trimmed(s).len() == 0 {
        assert(j == 0);
        assert forall|k: int| 0 <= k < s.len() implies is_ws(#[trigger] s[k]) by {
            if k >= i {
                assert(s[k] == t[k - i]);
            }
        }
    } else {
        assert(s[i] == t[0]);
    }
    (i, i + j)
}

/// A word: not empty, and no white space in it.
pub open spec fn is_word(w: Seq<char>) -> bool {
    w.len() > 0 && forall|k: int| 0 <= k < w.len() ==> !is_ws(#[trigger] w[k])
}

proof fn lemma_words_split(a: Seq<char>, b: Seq<char>)
    requires
        a.len() == 0 || is_ws(a.last()) || b.len() == 0 || is_ws(b[0]),
    ensures
        words(a + b) == words(a) + words(b),
    decreases a.len(),
{
    if a.len() == 0 {
        assert(a + b =~= b);
        assert(words(a) + words(b) =~= words(b));
    } else if is_ws(a[0]) {
        let t = a.drop_first();
        assert((a + b).drop_first() =~= t + b);
        assert((a + b)[0] == a[0]);
        if t.len() > 0 {
            assert(t.last() == a.last());
        }
        lemma_words_split(t, b);
    } else {
        let w = leading_word(a);
        lemma_leading_word_shape(a);
        let n = w.len() as int;
        let c = a + b;
        assert(c[0] == a[0]);
        assert forall|k: int| 0 <= k < n implies !is_ws(#[trigger] c[k]) by {
            assert(c[k] == a[k]);
        }
        if n < a.len() {
            assert(c[n] == a[n]);
        } else if b.len() > 0 {
            assert(n == a.len());
            assert(!is_ws(a[a.len() - 1]));
            assert(c[n] == b[0]);
        }
        lemma_leading_word_is(c, n);
        assert(c.take(n) =~= a.take(n));
        let t = a.skip(n);
        assert(c.skip(n) =~= t + b);
        if t.len() > 0 {
            assert(t.last() == a.last());
        }
        lemma_words_split(t, b);
        assert(words(c) == seq![w] + words(c.skip(n)));
        assert(seq![w] + (words(t) + words(b)) =~= (seq![w] + words(t)) + words(b));
    }
}

proof fn lemma_words_of_word(w: Seq<char>)
    requires
        is_word(w),
    ensures
        words(w) == seq![w],
{
    lemma_leading_word_is(w, w.len() as int);
    assert(w.take(w.len() as int) =~= w);
    assert(w.skip(w.len() as int) =~= Seq::<char>::empty());
    assert(words(Seq::<char>::empty()) =~= Seq::<Seq<char>>::empty());
    assert(seq![w] + Seq::<Seq<char>>::empty() =~= seq![w]);
}

/// Words joined by single spaces split back into the same words: neither
/// joining nor splitting loses, adds or changes a character of a word.
pub proof fn law_joined_words_split_back(ws: Seq<Seq<char>>)
    requires
        forall|i: int| 0 <= i < ws.len() ==> is_word(#[trigger] ws[i]),
    ensures
        words(join_spaced(ws)) == ws,
    decreases ws.len(),
{
    if ws.len() == 0 {
        assert(words(Seq::<char>::empty()) =~= ws);
    } else if ws.len() == 1 {
        lemma_words_of_word(ws[0]);
        assert(seq![ws[0]] =~= ws);
    } else {
        let d = ws.drop_last();
        assert forall|i: int| 0 <= i < d.len() implies is_word(#[trigger] d[i]) by {
            assert(d[i] == ws[i]);
        }
        law_joined_words_split_back(d);
        let j = join_spaced(d);
        let sp = seq![' '];
        assert(is_ws(' '));
        lemma_words_split(j, sp);
        assert(sp.drop_first() =~= Seq::<char>::empty());
        assert(sp[0] == ' ');
        assert(words(Seq::<char>::empty()) =~= Seq::<Seq<char>>::empty());
        assert(words(sp) == words(sp.drop_first()));
        assert(words(sp) =~= Seq::<Seq<char>>::empty());
        assert(is_word(ws.last()));
        lemma_words_of_word(ws.last());
        lemma_words_split(j + sp, ws.last());
        assert(words(j + sp) =~= d);
        assert(d + seq![ws.last()] =~= ws);
    }
}

/// `s` without leading and trailing white space: `str::trim`.
pub fn trim(s: &str) -> (r: &str)
    ensures
        r@ == trimmed(s@),
{
    let n = s.unicode_len();
    let mut i: usize = 0;
    while i < n && is_whitespace(s.get_char(i))
        invariant
            n == s@.len(),
            i <= n,
            forall|k: int| 0 <= k < i ==> is_ws(#[trigger] s@[k]),
        decreases n - i,
    {
        i = i + 1;
    }
    proof {
        lemma_trim_left_skip(s@, i as int);
        if i < n {
            assert(trim_left(s@.skip(i as int)) == s@.skip(i as int));
        } else {
            assert(s@.skip(i as int).len() == 0);
        }
    }
    let mut j: usize = n;
    while j > i && is_whitespace(s.get_char(j - 1))
        invariant
            n == s@.len(),
            i <= j <= n,
            trim_left(s@) == s@.skip(i as int),
            forall|k: int| j <= k < n ==> is_ws(#[trigger] s@[k]),
        decreases j,
    {
        j = j - 1;
    }
    proof {
        let t = s@.skip(i as int);
        assert forall|k: int| j - i <= k < t.len() implies is_ws(#[trigger] t[k]) by {
            assert(t[k] == s@[k + i]);
        }
        lemma_trim_right_take(t, j - i);
        let u = t.take(j - i);
        assert(u =~= s@.subrange(i as int, j as int));
        if j > i {
            assert(!is_ws(u.last()));
        }
        assert(trim_right(u) == u);
    }
    s.substring_char(i, j)
}

proof fn lemma_words_skip_ws(s: Seq<char>, i: int)
    requires
        0 <= i < s.len(),
        is_ws(s[i]),
    ensures
        words(s.skip(i)) == words(s.skip(i + 1)),
{
    assert(s.skip(i).drop_first() =~= s.skip(i + 1));
}

proof fn lemma_words_take_word(s: Seq<char>, i: int, j: int)
    requires
        0 <= i < j <= s.len(),
        forall|k: int| i <= k < j ==> !is_ws(#[trigger] s[k]),
        j < s.len() ==> is_ws(s[j]),
    ensures
        words(s.skip(i)) == seq![s.subrange(i, j)] + words(s.skip(j)),
{
    let t = s.skip(i);
    assert forall|k: int| 0 <= k < j - i implies !is_ws(#[trigger] t[k]) by {
        assert(t[k] == s[k + i]);
    }
    if j < s.len() {
        assert(t[j - i] == s[j]);
    }
    lemma_leading_word_is(t, j - i);
    assert(t.take(j - i) =~= s.subrange(i, j));
    assert(t.skip(j - i) =~= s.skip(j));
    assert(!is_ws(t[0]));
}

/// The white-space separated words of `s`: `str::split_whitespace`.
pub fn split_words(s: &str) -> (r: Vec<&str>)
    ensures
        r@.map_values(|w: &str| w@) == words(s@),
{
    let n = s.unicode_len();
    let mut out: Vec<&str> = Vec::new();
    let mut i: usize = 0;
    assert(s@.skip(0) =~= s@);
    while i < n
        invariant
            n == s@.len(),
            i <= n,
            words(s@) == out@.map_values(|w: &str| w@) + words(s@.skip(i as int)),
        decreases n - i,
    {
        if is_whitespace(s.get_char(i)) {
            proof {
                lemma_words_skip_ws(s@, i as int);
            }
            i = i + 1;
        } else {
            let mut j: usize = i + 1;
            while j < n && !is_whitespace(s.get_char(j))
                invariant
                    n == s@.len(),
                    i < j <= n,
                    forall|k: int| i <= k < j ==> !is_ws(#[trigger] s@[k]),
                decreases n - j,
            {
                j = j + 1;
            }
            proof {
                lemma_words_take_word(s@, i as int, j as int);
            }
            let w = s.substring_char(i, j);
            let ghost before = out@;
            out.push(w);
            proof {
                assert(out@.map_values(|w: &str| w@) =~= before.map_values(|w: &str| w@) + seq![
                    s@.subrange(i as int, j as int),
                ]);
            }
            i = j;
        }
    }
    proof {
        assert(s@.skip(n as int).len() == 0);
        assert(words(s@.skip(n as int)) =~= Seq::<Seq<char>>::empty());
        assert(out@.map_values(|w: &str| w@) =~= out@.map_values(|w: &str| w@) + Seq::<
            Seq<char>,
        >::empty());
    }
    out
}

/// The words of `ws` joined by single spaces: `[&str]::join(" ")`.
pub fn join_words(ws: &[&str]) -> (r: String)
    ensures
        r@ == join_spaced(ws@.map_values(|w: &str| w@)),
{
    let mut out = String::new();
    let mut i: usize = 0;
    while i < ws.len()
        invariant
            i <= ws@.len(),
            out@ == join_spaced(ws@.map_values(|w: &str| w@).take(i as int)),
        decreases ws@.len() - i,
    {
        let ghost m = ws@.map_values(|w: &str| w@);
        if i > 0 {
            out.append(" ");
        }
        out.append(ws[i]);
        proof {
            let t = m.take(i + 1);
            assert(t.drop_last() =~= m.take(i as int));
            reveal_strlit(" ");
            if i > 0 {
                assert(out@ =~= join_spaced(t));
            } else {
                assert(t.len() == 1);
                assert(out@ =~= join_spaced(t));
            }
        }
        i = i + 1;
    }
    assert(ws@.map_values(|w: &str| w@).take(ws@.len() as int) =~= ws@.map_values(|w: &str| w@));
    out
}

} // verus!
