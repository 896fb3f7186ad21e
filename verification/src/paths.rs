//! Unix path text: joining, final component, parent, and whether a path
//! may be used.
//!
//! A path is split by `/` into pieces. A leading `/` is the root. A path
//! that does not start at the root and whose first piece is `.` starts with
//! the current directory. Past these, empty pieces and `.` pieces carry no
//! meaning; `..` is the parent directory and any other piece is a name.
use vstd::prelude::*;

verus! {

/// The path starts at the root.
pub open spec fn has_root(p: Seq<char>) -> bool {
    p.len() > 0 && p[0] == '/'
}

/// The path starts with the current directory `.`.
pub open spec fn has_cur_dir(p: Seq<char>) -> bool {
    !has_root(p) && p.len() > 0 && p[0] == '.' && (p.len() == 1 || p[1] == '/')
}

/// Where the pieces after the root or the leading `.` begin.
pub open spec fn body_start(p: Seq<char>) -> int {
    if has_root(p) || has_cur_dir(p) {
        1
    } else {
        0
    }
}

/// The last character of `p` ends a piece `.`, `p` being read from `base`.
pub open spec fn ends_in_dot_piece(p: Seq<char>, base: int) -> bool {
    &&& p.len() > base
    &&& p.last() == '.'
    &&& (p.len() - 1 == base || p[p.len() - 2] == '/')
}

/// `p` without the separators and `.` pieces that end it, not reaching into
/// the first `base` characters.
pub open spec fn strip_tail(p: Seq<char>, base: int) -> Seq<char>
    decreases p.len(),
{
    if p.len() > 0 && p.len() > base && (p.last() == '/' || ends_in_dot_piece(p, base)) {
        strip_tail(p.drop_last(), base)
    } else {
        p
    }
}

/// The characters of `q` after its last `/`.
pub open spec fn last_seg(q: Seq<char>) -> Seq<char>
    decreases q.len(),
{
    if q.len() == 0 || q.last() == '/' {
        Seq::empty()
    } else {
        last_seg(q.drop_last()).push(q.last())
    }
}

pub open spec fn dot_dot() -> Seq<char> {
    seq!['.', '.']
}

/// The final component of `p` when it is a name: `Path::file_name`.
pub open spec fn file_name(p: Seq<char>) -> Option<Seq<char>> {
    let base = body_start(p);
    let q = strip_tail(p, base);
    if q.len() > base && last_seg(q) != dot_dot() {
        Some(last_seg(q))
    } else {
        None
    }
}

/// `p` without its final component: `Path::parent`.
pub open spec fn parent(p: Seq<char>) -> Option<Seq<char>> {
    let base = body_start(p);
    let q = strip_tail(p, base);
    if q.len() > base {
        let r = q.take(q.len() - last_seg(q).len());
        let r2 = if r.len() > base {
            r.drop_last()
        } else {
            r
        };
        Some(strip_tail(r2, base))
    } else if has_cur_dir(p) {
        Some(Seq::empty())
    } else {
        None
    }
}

/// `b` appended to `a` as a path: `Path::join`. A `b` at the root replaces
/// `a`; otherwise a `/` goes between them unless `a` is empty or ends in one.
pub open spec fn join(a: Seq<char>, b: Seq<char>) -> Seq<char> {
    if has_root(b) {
        b
    } else if a.len() > 0 && a.last() != '/' {
        a + seq!['/'] + b
    } else {
        a + b
    }
}

/// The first `j` characters of `p` strip to what `p` strips to, while what
/// lies past them is stripped.
proof fn lemma_strip_take_step(p: Seq<char>, base: int, j: int)
    requires
        0 <= base < j <= p.len(),
        p[j - 1] == '/' || (p[j - 1] == '.' && (j - 1 == base || p[j - 2] == '/')),
    ensures
        strip_tail(p.take(j), base) == strip_tail(p.take(j - 1), base),
{
    let t = p.take(j);
    assert(t.last() == p[j - 1]);
    if j - 1 > base {
        assert(t[t.len() - 2] == p[j - 2]);
    }
    assert(t.drop_last() =~= p.take(j - 1));
}

proof fn lemma_last_seg_of_take(q: Seq<char>, k: int)
    requires
        0 <= k <= q.len(),
        forall|i: int| k <= i < q.len() ==> #[trigger] q[i] != '/',
        k > 0 ==> q[k - 1] == '/',
    ensures
        last_seg(q) == q.skip(k),
    decreases q.len() - k,
{
    if q.len() > k {
        let t = q.drop_last();
        lemma_last_seg_of_take(t, k);
        assert(t.skip(k).push(q.last()) =~= q.skip(k));
    } else {
        if k > 0 {
            assert(q.last() == '/');
        }
        assert(q.skip(k) =~= Seq::<char>::empty());
    }
}

fn body_start_of(p: &str, n: usize) -> (b: usize)
    requires
        n == p@.len(),
    ensures
        b == body_start(p@),
        b <= n,
{
    if n == 0 {
        return 0;
    }
    let c0 = p.get_char(0);
    if c0 == '/' {
        1
    } else if c0 == '.' && (n == 1 || p.get_char(1) == '/') {
        1
    } else {
        0
    }
}

/// Length of `strip_tail` of the first `m` characters of `p`.
fn strip_tail_len(p: &str, base: usize, m: usize) -> (j: usize)
    requires
        m <= p@.len(),
        base <= m,
    ensures
        base <= j <= m,
        strip_tail(p@.take(m as int), base as int) == p@.take(j as int),
{
    let mut j: usize = m;
    assert(p@.take(m as int).take(m as int) =~= p@.take(m as int));
    while j > base && (p.get_char(j - 1) == '/' || (p.get_char(j - 1) == '.' && (j - 1 == base
        || p.get_char(j - 2) == '/')))
        invariant
            m <= p@.len(),
            base <= j <= m,
            strip_tail(p@.take(m as int), base as int) == strip_tail(p@.take(j as int), base as int),
        decreases j,
    {
        proof {
            lemma_strip_take_step(p@, base as int, j as int);
        }
        j = j - 1;
    }
    proof {
        let t = p@.take(j as int);
        if j > base {
            assert(t.last() == p@[j - 1]);
            if j - 1 > base {
                assert(t[t.len() - 2] == p@[j - 2]);
            }
        }
    }
    j
}

/// Index where the last piece of the first `j` characters begins.
fn seg_start(p: &str, base: usize, j: usize) -> (k: usize)
    requires
        base == body_start(p@),
        base < j <= p@.len(),
    ensures
        base <= k <= j,
        last_seg(p@.take(j as int)) == p@.subrange(k as int, j as int),
{
    let mut k: usize = j;
    while k > base && p.get_char(k - 1) != '/'
        invariant
            base <= k <= j <= p@.len(),
            forall|i: int| k <= i < j ==> #[trigger] p@[i] != '/',
        decreases k,
    {
        k = k - 1;
    }
    proof {
        let q = p@.take(j as int);
        assert forall|i: int| k <= i < q.len() implies #[trigger] q[i] != '/' by {
            assert(q[i] == p@[i]);
        }
        if k > 0 {
            if k == base && !has_root(p@) {
                // the leading `.` is followed by `/`, which ended the loop
                assert(p@[1] == '/');
                assert(false);
            }
            assert(q[k - 1] == p@[k - 1]);
        }
        lemma_last_seg_of_take(q, k as int);
        assert(q.skip(k as int) =~= p@.subrange(k as int, j as int));
    }
    k
}

/// The final component of `path` when it is a name.
pub fn path_file_name(path: &str) -> (r: Option<&str>)
    ensures
        r matches Some(s) ==> file_name(path@) == Some(s@),
        r is None ==> file_name(path@) is None,
{
    let n = path.unicode_len();
    let base = body_start_of(path, n);
    let j = strip_tail_len(path, base, n);
    assert(path@.take(n as int) =~= path@);
    if j == base {
        return None;
    }
    let k = seg_start(path, base, j);
    let seg = path.substring_char(k, j);
    let dots = crate::text::same_text(seg, "..");
    proof {
        reveal_strlit("..");
        assert(".."@ =~= dot_dot());
    }
    if dots {
        None
    } else {
        Some(seg)
    }
}

/// The path without its final component.
pub fn path_parent(path: &str) -> (r: Option<&str>)
    ensures
        r matches Some(s) ==> parent(path@) == Some(s@),
        r is None ==> parent(path@) is None,
{
    let n = path.unicode_len();
    let base = body_start_of(path, n);
    let j = strip_tail_len(path, base, n);
    assert(path@.take(n as int) =~= path@);
    if j > base {
        let k = seg_start(path, base, j);
        let r2 = if k > base {
            k - 1
        } else {
            k
        };
        let j2 = strip_tail_len(path, base, r2);
        proof {
            let q = path@.take(j as int);
            let r = q.take(q.len() - last_seg(q).len());
            assert(r =~= path@.take(k as int));
            if r.len() > base {
                assert(r.drop_last() =~= path@.take(r2 as int));
            }
            assert(path@.take(j2 as int) =~= path@.subrange(0, j2 as int));
        }
        Some(path.substring_char(0, j2))
    } else if n > 0 && path.get_char(0) == '.' && (n == 1 || path.get_char(1) == '/') {
        Some(path.substring_char(0, 0))
    } else {
        None
    }
}

/// Join two strings as if they were paths: `"bongo"` and `"taco"` give
/// `"bongo/taco"`.
pub fn combine_path(path1: &str, path2: &str) -> (r: String)
    ensures
        r@ == join(path1@, path2@),
{
    let n1 = path1.unicode_len();
    let n2 = path2.unicode_len();
    if n2 > 0 && path2.get_char(0) == '/' {
        return path2.to_string();
    }
    let mut out = path1.to_string();
    if n1 > 0 && path1.get_char(n1 - 1) != '/' {
        out.append("/");
        proof {
            reveal_strlit("/");
        }
    }
    out.append(path2);
    out
}

/// The final component of `path`, or the empty string when it has none.
pub fn get_basename(path: String) -> (r: String)
    ensures
        r@ == match file_name(path@) {
            Some(name) => name,
            None => Seq::empty(),
        },
{
    match path_file_name(path.as_str()) {
        Some(name) => name.to_string(),
        None => String::new(),
    }
}

/// The directory that holds `path`.
pub fn get_dirname(path: &str) -> (r: String)
    requires
        parent(path@) is Some,
    ensures
        r@ == parent(path@)->0,
{
    match path_parent(path) {
        Some(dir) => dir.to_string(),
        None => String::new(),
    }
}

/// Why a path was refused.
#[derive(Debug)]
pub enum PathError {
    /// Nothing exists at the path.
    DoesNotExist(String),
}

/// The path, when something exists there.
pub fn validate_path(path: &str, exists: bool) -> (r: Result<String, PathError>)
    ensures
        exists ==> (r matches Ok(p) && p@ == path@),
        !exists ==> (r matches Err(PathError::DoesNotExist(p)) && p@ == path@),
{
    if !exists {
        return Err(PathError::DoesNotExist(path.to_string()));
    }
    Ok(path.to_string())
}

} // verus!
