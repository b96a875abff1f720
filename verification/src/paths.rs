use vstd::prelude::*;

use crate::error::{validation, CliError};
use crate::text::{chars_of, push_char, push_chars};

verus! {

/// `base` joined with `rel` as `PathBuf::join` does it on Unix: an absolute `rel` replaces
/// `base`; otherwise a `/` separates the two unless `base` is empty or already ends in one.
pub open spec fn join_path(base: Seq<char>, rel: Seq<char>) -> Seq<char> {
    if rel.len() > 0 && rel[0] == '/' {
        rel
    } else if base.len() == 0 || base.last() == '/' {
        base + rel
    } else {
        base.push('/') + rel
    }
}

pub fn join(base: &str, rel: &str) -> (r: String)
    ensures
        r@ == join_path(base@, rel@),
{
    let b = chars_of(base);
    let rv = chars_of(rel);
    if rv.len() > 0 && rv[0] == '/' {
        return String::from_str(rel);
    }
    let mut out = String::from_str(base);
    if b.len() > 0 && b[b.len() - 1] != '/' {
        push_char(&mut out, '/');
    }
    out.append(rel);
    out
}

/// Decides the memory bank root from what the file system said of `root`: whether it exists,
/// and the outcome of making it canonical (the canonical path, or the reason it failed).
pub fn resolve_root(root: &str, exists: bool, canonical: Result<String, String>) -> (r: Result<String, CliError>)
    ensures
        !exists ==> (r matches Err(CliError::Storage(m)) && m@ == "Root '"@ + root@ + "' does not exist"@),
        exists ==> match canonical {
            Ok(p) => (r matches Ok(q) && q@ == p@),
            Err(e) => (r matches Err(CliError::Storage(m)) && m@ == "Unable to canonicalize root: "@ + e@),
        },
{
    if !exists {
        let mut m = String::from_str("Root '");
        m.append(root);
        m.append("' does not exist");
        return Err(CliError::Storage(m));
    }
    match canonical {
        Ok(p) => Ok(p),
        Err(e) => {
            let mut m = String::from_str("Unable to canonicalize root: ");
            m.append(e.as_str());
            Err(CliError::Storage(m))
        },
    }
}

pub open spec fn memory_dir_of(root: Seq<char>) -> Seq<char> {
    join_path(root, ".memory"@)
}

/// `<root>/.memory`
pub fn memory_dir(root: &str) -> (r: String)
    ensures
        r@ == memory_dir_of(root@),
{
    join(root, ".memory")
}

/// `<root>/.memory/documents`
pub fn documents_dir(root: &str) -> (r: String)
    ensures
        r@ == join_path(memory_dir_of(root@), "documents"@),
{
    let m = memory_dir(root);
    join(m.as_str(), "documents")
}

/// `<root>/.memory/sql`
pub fn sql_dir(root: &str) -> (r: String)
    ensures
        r@ == join_path(memory_dir_of(root@), "sql"@),
{
    let m = memory_dir(root);
    join(m.as_str(), "sql")
}

/// `<root>/.memory/memorybank.sqlite3`
pub fn database_path(root: &str) -> (r: String)
    ensures
        r@ == join_path(memory_dir_of(root@), "memorybank.sqlite3"@),
{
    let m = memory_dir(root);
    join(m.as_str(), "memorybank.sqlite3")
}

/// `<root>/.memory/config.json`
pub fn config_path(root: &str) -> (r: String)
    ensures
        r@ == join_path(memory_dir_of(root@), "config.json"@),
{
    let m = memory_dir(root);
    join(m.as_str(), "config.json")
}

pub open spec fn not_initialized_message(root: Seq<char>) -> Seq<char> {
    "Memory bank is not initialized at '"@ + memory_dir_of(root) + "'"@
}

/// Decides whether the layout under `root` is initialized, given whether the memory,
/// documents and SQL directories exist as directories.
pub fn require_initialized(
    root: &str,
    memory_is_dir: bool,
    documents_is_dir: bool,
    sql_is_dir: bool,
) -> (r: Result<(), CliError>)
    ensures
        r is Ok <==> memory_is_dir && documents_is_dir && sql_is_dir,
        r matches Err(e) ==> e matches CliError::NotInitialized(m) && m@
            == not_initialized_message(root@),
{
    if memory_is_dir && documents_is_dir && sql_is_dir {
        Ok(())
    } else {
        let mut m = String::from_str("Memory bank is not initialized at '");
        let d = memory_dir(root);
        m.append(d.as_str());
        m.append("'");
        Err(CliError::NotInitialized(m))
    }
}

/// The pieces of `s` between `/` separators, in order, empty pieces included.
pub open spec fn split_slash(s: Seq<char>) -> Seq<Seq<char>>
    decreases s.len(),
{
    if s.len() == 0 {
        seq![Seq::<char>::empty()]
    } else {
        let init = split_slash(s.drop_last());
        if s.last() == '/' {
            init.push(Seq::<char>::empty())
        } else {
            init.update(init.len() - 1, init.last().push(s.last()))
        }
    }
}

/// A piece that names something: not empty and not `.`.
pub open spec fn is_named(seg: Seq<char>) -> bool {
    seg.len() > 0 && seg != seq!['.']
}

pub open spec fn keep_named(ss: Seq<Seq<char>>) -> Seq<Seq<char>>
    decreases ss.len(),
{
    if ss.len() == 0 {
        Seq::empty()
    } else {
        let r = keep_named(ss.drop_last());
        if is_named(ss.last()) {
            r.push(ss.last())
        } else {
            r
        }
    }
}

/// The named components of a Unix path (what `Path::components` yields as normal and
/// parent-directory components, in order).
pub open spec fn path_parts(s: Seq<char>) -> Seq<Seq<char>> {
    keep_named(split_slash(s))
}

pub open spec fn is_absolute(s: Seq<char>) -> bool {
    s.len() > 0 && s[0] == '/'
}

/// The parts `/`-joined.
pub open spec fn join_parts(ps: Seq<Seq<char>>) -> Seq<char>
    decreases ps.len(),
{
    if ps.len() == 0 {
        Seq::empty()
    } else if ps.len() == 1 {
        ps[0]
    } else {
        join_parts(ps.drop_last()).push('/') + ps.last()
    }
}

/// The parts of `input` that remain once an absolute `input` under the absolute `root`
/// has the root's parts removed (`Path::strip_prefix`).
pub open spec fn relative_parts(root: Seq<char>, input: Seq<char>) -> Seq<Seq<char>> {
    let ip = path_parts(input);
    let rp = path_parts(root);
    if is_absolute(input) && is_absolute(root) && rp.len() <= ip.len() && ip.subrange(
        0,
        rp.len() as int,
    ) == rp {
        ip.subrange(rp.len() as int, ip.len() as int)
    } else {
        ip
    }
}

pub open spec fn empty_path_message() -> Seq<char> {
    "Related file path must not be empty"@
}

/// What `normalize_related_file` returns: the `/`-joined relative parts, or a validation
/// error when none remain.
pub open spec fn normalized(root: Seq<char>, input: Seq<char>) -> Option<Seq<char>> {
    let ps = relative_parts(root, input);
    if ps.len() == 0 {
        None
    } else {
        Some(join_parts(ps))
    }
}

proof fn lemma_split_nonempty(s: Seq<char>)
    ensures
        split_slash(s).len() >= 1,
    decreases s.len(),
{
    if s.len() > 0 {
        lemma_split_nonempty(s.drop_last());
    }
}

pub open spec fn range_seqs(s: Seq<char>, rs: Seq<(usize, usize)>) -> Seq<Seq<char>> {
    Seq::new(rs.len(), |k: int| s.subrange(rs[k].0 as int, rs[k].1 as int))
}

/// The index ranges of the named components of `s`.
fn part_ranges(s: &Vec<char>) -> (rs: Vec<(usize, usize)>)
    ensures
        range_seqs(s@, rs@) == path_parts(s@),
        forall|k: int| 0 <= k < rs@.len() ==> (#[trigger] rs@[k]).0 <= rs@[k].1 <= s@.len(),
{
    let n = s.len();
    let mut rs: Vec<(usize, usize)> = Vec::new();
    let mut st: usize = 0;
    let mut i: usize = 0;
    proof {
        assert(s@.subrange(0, 0) =~= Seq::<char>::empty());
        assert(split_slash(s@.subrange(0, 0)).drop_last() =~= Seq::<Seq<char>>::empty());
        assert(range_seqs(s@, rs@) =~= Seq::<Seq<char>>::empty());
        assert(s@.subrange(st as int, i as int) =~= Seq::<char>::empty());
    }
    while i < n
        invariant
            n == s@.len(),
            st <= i <= n,
            split_slash(s@.subrange(0, i as int)).len() >= 1,
            split_slash(s@.subrange(0, i as int)).last() == s@.subrange(st as int, i as int),
            keep_named(split_slash(s@.subrange(0, i as int)).drop_last()) == range_seqs(
                s@,
                rs@,
            ),
            forall|k: int| 0 <= k < rs@.len() ==> (#[trigger] rs@[k]).0 <= rs@[k].1 <= n,
        decreases n - i,
    {
        let ghost pre = s@.subrange(0, i as int);
        let ghost post = s@.subrange(0, i + 1);
        let ghost sp = split_slash(pre);
        proof {
            assert(post.drop_last() =~= pre);
            assert(post.last() == s@[i as int]);
            lemma_split_nonempty(pre);
        }
        if s[i] == '/' {
            let ghost seg = s@.subrange(st as int, i as int);
            proof {
                assert(split_slash(post) == sp.push(Seq::<char>::empty()));
                assert(split_slash(post).drop_last() =~= sp);
                assert(sp =~= sp.drop_last().push(sp.last()));
            }
            let named = i > st && !(i == st + 1 && s[st] == '.');
            proof {
                if seg.len() != 1 {
                    assert(seg.len() != seq!['.'].len());
                }
                if i == st + 1 {
                    assert(seg.len() == 1 && seg[0] == s@[st as int]);
                    if s@[st as int] == '.' {
                        assert(seg =~= seq!['.']);
                    } else {
                        assert(seg != seq!['.']) by {
                            assert(seg[0] != seq!['.'][0]);
                        }
                    }
                }
                assert(named == is_named(seg));
            }
            if named {
                let ghost before = rs@;
                rs.push((st, i));
                proof {
                    assert(range_seqs(s@, rs@) =~= range_seqs(s@, before).push(seg));
                }
            }
            i = i + 1;
            st = i;
            proof {
                assert(s@.subrange(st as int, i as int) =~= Seq::<char>::empty());
            }
        } else {
            proof {
                let upd = sp.update(sp.len() - 1, sp.last().push(s@[i as int]));
                assert(split_slash(post) == upd);
                assert(upd.drop_last() =~= sp.drop_last());
                assert(upd.last() =~= s@.subrange(st as int, i + 1));
            }
            i = i + 1;
        }
    }
    proof {
        assert(s@.subrange(0, n as int) =~= s@);
        let sp = split_slash(s@);
        assert(sp =~= sp.drop_last().push(sp.last()));
    }
    let last_named = n > st && !(n == st + 1 && s[st] == '.');
    let ghost seg = s@.subrange(st as int, n as int);
    proof {
        if seg.len() != 1 {
            assert(seg.len() != seq!['.'].len());
        }
        if n == st + 1 {
            assert(seg.len() == 1 && seg[0] == s@[st as int]);
            if s@[st as int] == '.' {
                assert(seg =~= seq!['.']);
            } else {
                assert(seg != seq!['.']) by {
                    assert(seg[0] != seq!['.'][0]);
                }
            }
        }
        assert(last_named == is_named(seg));
    }
    if last_named {
        let ghost before = rs@;
        rs.push((st, n));
        proof {
            assert(range_seqs(s@, rs@) =~= range_seqs(s@, before).push(seg));
        }
    }
    rs
}

fn slices_equal(a: &Vec<char>, a0: usize, a1: usize, b: &Vec<char>, b0: usize, b1: usize) -> (r:
    bool)
    requires
        a0 <= a1 <= a@.len(),
        b0 <= b1 <= b@.len(),
    ensures
        r == (a@.subrange(a0 as int, a1 as int) == b@.subrange(b0 as int, b1 as int)),
{
    if a1 - a0 != b1 - b0 {
        assert(a@.subrange(a0 as int, a1 as int).len() != b@.subrange(b0 as int, b1 as int).len());
        return false;
    }
    let m = a1 - a0;
    let mut k: usize = 0;
    while k < m
        invariant
            k <= m,
            m == a1 - a0,
            m == b1 - b0,
            a0 <= a1 <= a@.len(),
            b0 <= b1 <= b@.len(),
            forall|t: int|
                0 <= t < k ==> #[trigger] a@.subrange(a0 as int, a1 as int)[t] == b@.subrange(
                    b0 as int,
                    b1 as int,
                )[t],
        decreases m - k,
    {
        if a[a0 + k] != b[b0 + k] {
            assert(a@.subrange(a0 as int, a1 as int)[k as int] != b@.subrange(
                b0 as int,
                b1 as int,
            )[k as int]);
            return false;
        }
        k = k + 1;
    }
    assert(a@.subrange(a0 as int, a1 as int) =~= b@.subrange(b0 as int, b1 as int));
    true
}

proof fn lemma_join_parts_step(ps: Seq<Seq<char>>, lo: int, k: int)
    requires
        0 <= lo <= k < ps.len(),
    ensures
        join_parts(ps.subrange(lo, k + 1)) == if k == lo {
            ps[k]
        } else {
            join_parts(ps.subrange(lo, k)).push('/') + ps[k]
        },
{
    let sub = ps.subrange(lo, k + 1);
    assert(sub.drop_last() =~= ps.subrange(lo, k));
    assert(sub.last() == ps[k]);
    if k == lo {
        assert(sub.len() == 1);
    }
}

/// Turns a related-file path into the form that the memory bank stores: relative to `root`
/// when it is an absolute path under `root`, without `.` components or empty components, and
/// with its parts joined by `/`. Fails when nothing remains.
pub fn normalize_related_file(root: &str, input: &str) -> (r: Result<String, CliError>)
    ensures
        r is Ok <==> normalized(root@, input@) is Some,
        r matches Ok(p) ==> normalized(root@, input@) == Some(p@),
        r matches Err(e) ==> e matches CliError::Validation(m) && m@ == empty_path_message(),
{
    let iv = chars_of(input);
    let rv = chars_of(root);
    let ir = part_ranges(&iv);
    let rr = part_ranges(&rv);
    let ghost ip = path_parts(input@);
    let ghost rp = path_parts(root@);
    let mut strip = iv.len() > 0 && iv[0] == '/' && rv.len() > 0 && rv[0] == '/' && rr.len()
        <= ir.len();
    if strip {
        let mut k: usize = 0;
        let mut same = true;
        while same && k < rr.len()
            invariant
                k <= rr@.len() <= ir@.len(),
                range_seqs(iv@, ir@) == ip,
                range_seqs(rv@, rr@) == rp,
                forall|t: int| 0 <= t < ir@.len() ==> (#[trigger] ir@[t]).0 <= ir@[t].1 <= iv@.len(),
                forall|t: int| 0 <= t < rr@.len() ==> (#[trigger] rr@[t]).0 <= rr@[t].1 <= rv@.len(),
                forall|t: int| 0 <= t < k ==> ip[t] == rp[t],
                !same ==> ip.subrange(0, rp.len() as int) != rp,
            decreases rr.len() - k, (if same { 1int } else { 0int }),
        {
            if !slices_equal(&iv, ir[k].0, ir[k].1, &rv, rr[k].0, rr[k].1) {
                assert(ip.subrange(0, rp.len() as int)[k as int] != rp[k as int]);
                same = false;
            } else {
                k = k + 1;
            }
        }
        if same {
            assert(ip.subrange(0, rp.len() as int) =~= rp);
        }
        strip = same;
    }
    let skip: usize = if strip {
        rr.len()
    } else {
        0
    };
    proof {
        if !strip {
            if is_absolute(input@) && is_absolute(root@) && rp.len() <= ip.len() {
                assert(ip.subrange(0, rp.len() as int) != rp);
            }
            assert(ip.subrange(0, ip.len() as int) =~= ip);
        }
        assert(relative_parts(root@, input@) == ip.subrange(skip as int, ip.len() as int));
    }
    if skip == ir.len() {
        return Err(validation("Related file path must not be empty"));
    }
    let mut out = String::new();
    let mut k: usize = skip;
    while k < ir.len()
        invariant
            skip <= k <= ir@.len(),
            skip < ir@.len(),
            range_seqs(iv@, ir@) == ip,
            forall|t: int| 0 <= t < ir@.len() ==> (#[trigger] ir@[t]).0 <= ir@[t].1 <= iv@.len(),
            out@ == join_parts(ip.subrange(skip as int, k as int)),
        decreases ir.len() - k,
    {
        proof {
            lemma_join_parts_step(ip, skip as int, k as int);
        }
        if k > skip {
            push_char(&mut out, '/');
        }
        push_chars(&mut out, &iv, ir[k].0, ir[k].1);
        assert(ip[k as int] == iv@.subrange(ir@[k as int].0 as int, ir@[k as int].1 as int));
        k = k + 1;
    }
    Ok(out)
}

proof fn lemma_split_no_slash(x: Seq<char>, y: Seq<char>)
    requires
        !y.contains('/'),
    ensures
        split_slash(x + y) == split_slash(x).update(
            split_slash(x).len() - 1,
            split_slash(x).last() + y,
        ),
    decreases y.len(),
{
    lemma_split_nonempty(x);
    if y.len() == 0 {
        assert(x + y =~= x);
        assert(split_slash(x).last() + y =~= split_slash(x).last());
        assert(split_slash(x).update(split_slash(x).len() - 1, split_slash(x).last())
            =~= split_slash(x));
    } else {
        let y0 = y.drop_last();
        let c = y.last();
        assert(!y0.contains('/')) by {
            if y0.contains('/') {
                let i = choose|i: int| 0 <= i < y0.len() && y0[i] == '/';
                assert(y[i] == '/');
            }
        }
        assert(c != '/') by {
            assert(y[y.len() - 1] == c);
        }
        lemma_split_no_slash(x, y0);
        assert((x + y).drop_last() =~= x + y0);
        assert((x + y).last() == c);
        lemma_split_nonempty(x + y0);
        let sx = split_slash(x);
        let t = split_slash(x + y0);
        assert(t.len() == sx.len());
        assert(t.last() == sx.last() + y0);
        assert(split_slash(x + y) == t.update(t.len() - 1, t.last().push(c)));
        assert((sx.last() + y0).push(c) =~= sx.last() + y);
        assert(split_slash(x + y) =~= sx.update(sx.len() - 1, sx.last() + y));
    }
}

proof fn lemma_split_after_slash(x: Seq<char>, y: Seq<char>)
    ensures
        split_slash(x.push('/') + y) == split_slash(x) + split_slash(y),
    decreases y.len(),
{
    lemma_split_nonempty(y);
    if y.len() == 0 {
        assert(x.push('/') + y =~= x.push('/'));
        assert(x.push('/').drop_last() =~= x);
        assert(split_slash(y) =~= seq![Seq::<char>::empty()]);
        assert(split_slash(x.push('/')) =~= split_slash(x) + split_slash(y));
    } else {
        let y0 = y.drop_last();
        let c = y.last();
        lemma_split_after_slash(x, y0);
        lemma_split_nonempty(y0);
        assert((x.push('/') + y).drop_last() =~= x.push('/') + y0);
        assert((x.push('/') + y).last() == c);
        let a = split_slash(x);
        let b = split_slash(y0);
        if c == '/' {
            assert(split_slash(x.push('/') + y) =~= (a + b).push(Seq::<char>::empty()));
            assert((a + b).push(Seq::<char>::empty()) =~= a + b.push(Seq::<char>::empty()));
        } else {
            let ab = a + b;
            assert(ab.last() == b.last());
            assert(ab.update(ab.len() - 1, ab.last().push(c)) =~= a + b.update(
                b.len() - 1,
                b.last().push(c),
            ));
        }
    }
}

proof fn lemma_keep_named_concat(a: Seq<Seq<char>>, b: Seq<Seq<char>>)
    ensures
        keep_named(a + b) == keep_named(a) + keep_named(b),
    decreases b.len(),
{
    if b.len() == 0 {
        assert(a + b =~= a);
        assert(keep_named(a) + keep_named(b) =~= keep_named(a));
    } else {
        lemma_keep_named_concat(a, b.drop_last());
        assert((a + b).drop_last() =~= a + b.drop_last());
        assert((a + b).last() == b.last());
        if is_named(b.last()) {
            assert(keep_named(a + b) =~= keep_named(a) + keep_named(b));
        } else {
            assert(keep_named(a + b) =~= keep_named(a) + keep_named(b));
        }
    }
}

proof fn lemma_split_pieces_have_no_slash(s: Seq<char>)
    ensures
        forall|k: int|
            0 <= k < split_slash(s).len() ==> !(#[trigger] split_slash(s)[k]).contains('/'),
    decreases s.len(),
{
    if s.len() > 0 {
        lemma_split_pieces_have_no_slash(s.drop_last());
        lemma_split_nonempty(s.drop_last());
        let init = split_slash(s.drop_last());
        if s.last() != '/' {
            assert forall|k: int|
                0 <= k < split_slash(s).len() implies !(#[trigger] split_slash(s)[k]).contains(
                '/',
            ) by {
                if k == init.len() - 1 {
                    let piece = init.last().push(s.last());
                    assert(split_slash(s)[k] == piece);
                    if piece.contains('/') {
                        let i = choose|i: int| 0 <= i < piece.len() && piece[i] == '/';
                        if i < piece.len() - 1 {
                            assert(init.last()[i] == '/');
                            assert(init[init.len() - 1].contains('/'));
                        }
                    }
                }
            }
        } else {
            assert forall|k: int|
                0 <= k < split_slash(s).len() implies !(#[trigger] split_slash(s)[k]).contains(
                '/',
            ) by {
                if k < init.len() {
                    assert(split_slash(s)[k] == init[k]);
                }
            }
        }
    }
}

proof fn lemma_keep_named_elements(ss: Seq<Seq<char>>)
    ensures
        forall|k: int|
            0 <= k < keep_named(ss).len() ==> is_named(#[trigger] keep_named(ss)[k])
                && ss.contains(keep_named(ss)[k]),
    decreases ss.len(),
{
    if ss.len() > 0 {
        lemma_keep_named_elements(ss.drop_last());
        let r = keep_named(ss.drop_last());
        assert forall|k: int| 0 <= k < keep_named(ss).len() implies is_named(
            #[trigger] keep_named(ss)[k],
        ) && ss.contains(keep_named(ss)[k]) by {
            if k < r.len() {
                assert(keep_named(ss)[k] == r[k]);
                let j = choose|j: int| 0 <= j < ss.drop_last().len() && ss.drop_last()[j] == r[k];
                assert(ss[j] == r[k]);
            } else {
                assert(keep_named(ss)[k] == ss[ss.len() - 1]);
            }
        }
    }
}

/// Every named component is non-empty, is not `.`, and holds no `/`.
proof fn lemma_path_parts_shape(s: Seq<char>)
    ensures
        forall|k: int|
            0 <= k < path_parts(s).len() ==> is_named(#[trigger] path_parts(s)[k]) && !path_parts(
                s,
            )[k].contains('/'),
{
    lemma_keep_named_elements(split_slash(s));
    lemma_split_pieces_have_no_slash(s);
    assert forall|k: int| 0 <= k < path_parts(s).len() implies is_named(
        #[trigger] path_parts(s)[k],
    ) && !path_parts(s)[k].contains('/') by {
        let ss = split_slash(s);
        let j = choose|j: int| 0 <= j < ss.len() && ss[j] == path_parts(s)[k];
        assert(!ss[j].contains('/'));
    }
}

/// Joining named, slash-free parts and splitting again gives the parts back.
proof fn lemma_parts_of_joined(ps: Seq<Seq<char>>)
    requires
        forall|k: int| 0 <= k < ps.len() ==> is_named(#[trigger] ps[k]) && !ps[k].contains('/'),
    ensures
        path_parts(join_parts(ps)) == ps,
    decreases ps.len(),
{
    if ps.len() == 1 {
        lemma_split_no_slash(Seq::<char>::empty(), ps[0]);
        assert(Seq::<char>::empty() + ps[0] =~= ps[0]);
        assert(split_slash(Seq::<char>::empty()) =~= seq![Seq::<char>::empty()]);
        assert(split_slash(ps[0]) =~= seq![ps[0]]);
        assert(seq![ps[0]].drop_last() =~= Seq::<Seq<char>>::empty());
        assert(is_named(ps[0]));
        assert(keep_named(Seq::<Seq<char>>::empty()) == Seq::<Seq<char>>::empty());
        assert(keep_named(seq![ps[0]]) =~= ps);
    } else if ps.len() > 1 {
        let init = ps.drop_last();
        let last = ps.last();
        assert(ps[ps.len() - 1] == last);
        lemma_parts_of_joined(init);
        lemma_split_after_slash(join_parts(init), last);
        lemma_split_no_slash(Seq::<char>::empty(), last);
        assert(Seq::<char>::empty() + last =~= last);
        assert(split_slash(Seq::<char>::empty()) =~= seq![Seq::<char>::empty()]);
        assert(split_slash(last) =~= seq![last]);
        lemma_keep_named_concat(split_slash(join_parts(init)), seq![last]);
        assert(seq![last].drop_last() =~= Seq::<Seq<char>>::empty());
        assert(is_named(ps[ps.len() - 1]));
        assert(keep_named(Seq::<Seq<char>>::empty()) == Seq::<Seq<char>>::empty());
        assert(keep_named(seq![last]) =~= seq![last]);
        assert(init.push(last) =~= ps);
        assert(init + seq![last] =~= ps);
        assert(join_parts(ps) == join_parts(init).push('/') + last);
        assert(path_parts(join_parts(ps)) == keep_named(split_slash(join_parts(init))) + keep_named(
            seq![last],
        ));
    } else {
        assert(join_parts(ps) == Seq::<char>::empty());
        assert(split_slash(Seq::<char>::empty()) =~= seq![Seq::<char>::empty()]);
        assert(seq![Seq::<char>::empty()].drop_last() =~= Seq::<Seq<char>>::empty());
        assert(keep_named(Seq::<Seq<char>>::empty()) == Seq::<Seq<char>>::empty());
        assert(!is_named(Seq::<char>::empty()));
        assert(path_parts(join_parts(ps)) =~= ps);
    }
}

proof fn lemma_relative_parts_named(root: Seq<char>, input: Seq<char>)
    ensures
        forall|k: int|
            0 <= k < relative_parts(root, input).len() ==> is_named(
                #[trigger] relative_parts(root, input)[k],
            ) && !relative_parts(root, input)[k].contains('/'),
{
    let ps = relative_parts(root, input);
    let ip = path_parts(input);
    lemma_path_parts_shape(input);
    assert forall|k: int| 0 <= k < ps.len() implies is_named(#[trigger] ps[k]) && !ps[k].contains(
        '/',
    ) by {
        if is_absolute(input) && is_absolute(root) && path_parts(root).len() <= ip.len()
            && ip.subrange(0, path_parts(root).len() as int) == path_parts(root) {
            assert(ps[k] == ip[k + path_parts(root).len()]);
        }
    }
}

/// Splitting joined named, slash-free parts at `/` gives exactly those parts.
proof fn lemma_split_of_joined(ps: Seq<Seq<char>>)
    requires
        ps.len() > 0,
        forall|k: int| 0 <= k < ps.len() ==> is_named(#[trigger] ps[k]) && !ps[k].contains('/'),
    ensures
        split_slash(join_parts(ps)) == ps,
    decreases ps.len(),
{
    if ps.len() == 1 {
        lemma_split_no_slash(Seq::<char>::empty(), ps[0]);
        assert(Seq::<char>::empty() + ps[0] =~= ps[0]);
        assert(split_slash(Seq::<char>::empty()) =~= seq![Seq::<char>::empty()]);
        assert(split_slash(ps[0]) =~= ps);
    } else {
        let init = ps.drop_last();
        let last = ps.last();
        assert(ps[ps.len() - 1] == last);
        lemma_split_of_joined(init);
        lemma_split_after_slash(join_parts(init), last);
        lemma_split_no_slash(Seq::<char>::empty(), last);
        assert(Seq::<char>::empty() + last =~= last);
        assert(split_slash(Seq::<char>::empty()) =~= seq![Seq::<char>::empty()]);
        assert(split_slash(last) =~= seq![last]);
        assert(join_parts(ps) == join_parts(init).push('/') + last);
        assert(init + seq![last] =~= ps);
    }
}

/// A normalized path normalizes to itself: `normalize_related_file` is idempotent.
pub proof fn law_normalize_idempotent(root: Seq<char>, input: Seq<char>)
    requires
        normalized(root, input) is Some,
    ensures
        normalized(root, normalized(root, input)->0) == normalized(root, input),
{
    let ps = relative_parts(root, input);
    lemma_relative_parts_named(root, input);
    lemma_parts_of_joined(ps);
    let q = join_parts(ps);
    lemma_join_starts_with_part(ps);
    assert(!is_absolute(q));
}

/// A normalized path is relative and clean: it is not empty, does not start with `/`, and
/// every piece between its `/` separators is a name (not empty, not `.`).
pub proof fn law_normalized_shape(root: Seq<char>, input: Seq<char>)
    requires
        normalized(root, input) is Some,
    ensures
        ({
            let s = normalized(root, input)->0;
            &&& s.len() > 0
            &&& s[0] != '/'
            &&& forall|k: int| 0 <= k < split_slash(s).len() ==> is_named(#[trigger] split_slash(s)[k])
        }),
{
    let ps = relative_parts(root, input);
    lemma_relative_parts_named(root, input);
    lemma_split_of_joined(ps);
    lemma_join_starts_with_part(ps);
    assert(ps[0][0] != '/') by {
        if ps[0][0] == '/' {
            assert(ps[0].contains('/'));
        }
    }
}

proof fn lemma_join_starts_with_part(ps: Seq<Seq<char>>)
    requires
        ps.len() > 0,
        forall|k: int| 0 <= k < ps.len() ==> is_named(#[trigger] ps[k]) && !ps[k].contains('/'),
    ensures
        join_parts(ps).len() > 0 && join_parts(ps)[0] == ps[0][0],
    decreases ps.len(),
{
    assert(is_named(ps[0]));
    if ps.len() > 1 {
        lemma_join_starts_with_part(ps.drop_last());
        assert(ps.drop_last()[0] == ps[0]);
    }
}

/// A relative path and the same path written absolutely under an absolute root normalize to
/// the same stored form.
pub proof fn law_root_prefix_is_removed(root: Seq<char>, rel: Seq<char>)
    requires
        is_absolute(root),
        !is_absolute(rel),
    ensures
        normalized(root, join_path(root, rel)) == normalized(root, rel),
{
    let full = join_path(root, rel);
    let base = if root.last() == '/' {
        root.drop_last()
    } else {
        root
    };
    assert(full =~= base.push('/') + rel) by {
        if root.last() == '/' {
            assert(root =~= root.drop_last().push('/'));
        }
    }
    lemma_split_after_slash(base, rel);
    lemma_keep_named_concat(split_slash(base), split_slash(rel));
    assert(path_parts(root) == path_parts(base)) by {
        if root.last() == '/' {
            assert(root.drop_last() =~= base);
            assert(split_slash(root) == split_slash(base).push(Seq::<char>::empty()));
            assert(split_slash(root).drop_last() =~= split_slash(base));
            assert(!is_named(Seq::<char>::empty()));
        }
    }
    let rp = path_parts(root);
    let fp = path_parts(full);
    assert(fp == rp + path_parts(rel));
    assert(is_absolute(full)) by {
        assert(full[0] == base.push('/')[0]);
        if base.len() == 0 {
            assert(base.push('/')[0] == '/');
        } else {
            assert(base[0] == root[0]);
        }
    }
    assert(fp.subrange(0, rp.len() as int) =~= rp);
    assert(fp.subrange(rp.len() as int, fp.len() as int) =~= path_parts(rel));
}

} // verus!
