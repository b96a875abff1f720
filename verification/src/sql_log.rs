use sha2::{Digest, Sha256};
use vstd::prelude::*;

use crate::paths::{join, join_path};
use crate::text::{all_digits, chars_of, is_lower_hex, is_year_text, push_char};

verus! {

/// The schema that every database starts from; also the body of the first patch.
pub const SCHEMA_SQL: &'static str = "CREATE TABLE IF NOT EXISTS documents (
  id TEXT PRIMARY KEY,
  document_path TEXT NOT NULL UNIQUE,
  created_at TEXT NOT NULL,
  invalidated INTEGER NOT NULL DEFAULT 0,
  invalidation_reason TEXT,
  quick_summary TEXT NOT NULL,
  document_type TEXT NOT NULL CHECK (document_type IN ('COMMIT', 'PLAN', 'RESEARCH'))
);

CREATE TABLE IF NOT EXISTS document_files (
  document_id TEXT NOT NULL,
  file_path TEXT NOT NULL,
  PRIMARY KEY (document_id, file_path),
  FOREIGN KEY (document_id) REFERENCES documents(id) ON DELETE CASCADE
);

CREATE TABLE IF NOT EXISTS document_links (
  from_document_id TEXT NOT NULL,
  to_document_id TEXT NOT NULL,
  PRIMARY KEY (from_document_id, to_document_id),
  FOREIGN KEY (from_document_id) REFERENCES documents(id) ON DELETE CASCADE,
  FOREIGN KEY (to_document_id) REFERENCES documents(id) ON DELETE CASCADE
);

CREATE INDEX IF NOT EXISTS idx_document_files_file_path ON document_files(file_path);
CREATE INDEX IF NOT EXISTS idx_documents_type ON documents(document_type);
CREATE INDEX IF NOT EXISTS idx_documents_invalidated ON documents(invalidated);
CREATE INDEX IF NOT EXISTS idx_document_links_to ON document_links(to_document_id);
CREATE INDEX IF NOT EXISTS idx_document_links_from ON document_links(from_document_id);

CREATE TRIGGER IF NOT EXISTS trg_documents_invalidate_once
BEFORE UPDATE OF invalidated, invalidation_reason ON documents
WHEN OLD.invalidated = 1
BEGIN
  SELECT RAISE(IGNORE);
END;
";

/// The file name of the first patch.
pub const INIT_PATCH_NAME: &'static str = "000001_init.sql";

/// The content of the first patch: a header line, a blank line, and the schema.
pub fn init_patch_sql() -> (r: String)
    ensures
        r@ == "-- memorybank patch: init\n\n"@ + SCHEMA_SQL@,
{
    let mut s = String::from_str("-- memorybank patch: init\n\n");
    s.append(SCHEMA_SQL);
    s
}

/// `s` with every single quote doubled.
pub open spec fn escape_quotes(s: Seq<char>) -> Seq<char>
    decreases s.len(),
{
    if s.len() == 0 {
        Seq::empty()
    } else {
        escape_quotes(s.drop_last()) + escape_char(s.last())
    }
}

pub open spec fn escape_char(c: char) -> Seq<char> {
    if c == '\'' {
        seq!['\'', '\'']
    } else {
        seq![c]
    }
}

/// The SQL string literal for `s`.
pub open spec fn sql_literal(s: Seq<char>) -> Seq<char> {
    seq!['\''] + escape_quotes(s) + seq!['\'']
}

/// How SQL reads the inside of a string literal, left to right: two quotes in a row stand
/// for one quote, every other character for itself.
pub open spec fn unescape_quotes(t: Seq<char>) -> Seq<char>
    decreases t.len(),
{
    if t.len() == 0 {
        Seq::empty()
    } else if t.len() >= 2 && t[0] == '\'' && t[1] == '\'' {
        seq!['\''] + unescape_quotes(t.subrange(2, t.len() as int))
    } else {
        seq![t[0]] + unescape_quotes(t.subrange(1, t.len() as int))
    }
}

/// Quotes a value as an SQL string literal.
pub fn sql_string(value: &str) -> (r: String)
    ensures
        r@ == sql_literal(value@),
{
    let v = chars_of(value);
    let mut out = String::new();
    push_char(&mut out, '\'');
    let mut i: usize = 0;
    while i < v.len()
        invariant
            i <= v@.len(),
            out@ == seq!['\''] + escape_quotes(v@.subrange(0, i as int)),
        decreases v.len() - i,
    {
        let c = v[i];
        push_char(&mut out, c);
        if c == '\'' {
            push_char(&mut out, '\'');
        }
        assert(v@.subrange(0, i + 1).drop_last() =~= v@.subrange(0, i as int));
        i = i + 1;
        assert(out@ =~= seq!['\''] + escape_quotes(v@.subrange(0, i as int)));
    }
    push_char(&mut out, '\'');
    assert(v@.subrange(0, v@.len() as int) =~= v@);
    assert(out@ =~= sql_literal(value@));
    out
}

/// An SQL string literal for a present value, `NULL` for an absent one.
pub fn sql_optional_string(value: Option<&str>) -> (r: String)
    ensures
        r@ == match value {
            Some(v) => sql_literal(v@),
            None => "NULL"@,
        },
{
    match value {
        Some(v) => sql_string(v),
        None => String::from_str("NULL"),
    }
}

proof fn lemma_escape_concat(a: Seq<char>, b: Seq<char>)
    ensures
        escape_quotes(a + b) == escape_quotes(a) + escape_quotes(b),
    decreases b.len(),
{
    if b.len() == 0 {
        assert(a + b =~= a);
        assert(escape_quotes(a) + escape_quotes(b) =~= escape_quotes(a));
    } else {
        lemma_escape_concat(a, b.drop_last());
        assert((a + b).drop_last() =~= a + b.drop_last());
        assert((a + b).last() == b.last());
        assert(escape_quotes(a + b) =~= escape_quotes(a) + escape_quotes(b));
    }
}

/// Reading an escaped value back gives the value: quoting loses nothing, so what `add`
/// writes into a patch replays to the same text.
pub proof fn law_unescape_after_escape(s: Seq<char>)
    ensures
        unescape_quotes(escape_quotes(s)) == s,
    decreases s.len(),
{
    if s.len() > 0 {
        let rest = s.drop_first();
        assert(s =~= seq![s[0]] + rest);
        lemma_escape_concat(seq![s[0]], rest);
        assert(seq![s[0]].drop_last() =~= Seq::<char>::empty());
        assert(seq![s[0]].last() == s[0]);
        assert(escape_quotes(Seq::<char>::empty()) == Seq::<char>::empty());
        assert(escape_quotes(seq![s[0]]) == escape_quotes(Seq::<char>::empty()) + escape_char(
            s[0],
        ));
        assert(escape_quotes(seq![s[0]]) =~= escape_char(s[0]));
        law_unescape_after_escape(rest);
        let t = escape_quotes(s);
        assert(t =~= escape_char(s[0]) + escape_quotes(rest));
        if s[0] == '\'' {
            assert(t.subrange(2, t.len() as int) =~= escape_quotes(rest));
        } else {
            assert(t.subrange(1, t.len() as int) =~= escape_quotes(rest));
        }
        assert(unescape_quotes(t) =~= s);
    }
}

/// Two different values never get the same literal.
pub proof fn law_sql_literal_injective(a: Seq<char>, b: Seq<char>)
    requires
        sql_literal(a) == sql_literal(b),
    ensures
        a == b,
{
    let la = sql_literal(a);
    assert(escape_quotes(a) =~= la.subrange(1, la.len() - 1));
    assert(escape_quotes(b) =~= sql_literal(b).subrange(1, la.len() - 1));
    law_unescape_after_escape(a);
    law_unescape_after_escape(b);
}

/// `a` sorts strictly before `b` in code point order (the byte order of UTF-8, which is how
/// paths in one directory sort).
pub open spec fn lex_lt(a: Seq<char>, b: Seq<char>) -> bool
    decreases a.len(),
{
    if a.len() == 0 {
        b.len() > 0
    } else if b.len() == 0 {
        false
    } else if a[0] != b[0] {
        a[0] < b[0]
    } else {
        lex_lt(a.drop_first(), b.drop_first())
    }
}

pub proof fn lemma_lex_irreflexive(a: Seq<char>)
    ensures
        !lex_lt(a, a),
    decreases a.len(),
{
    if a.len() > 0 {
        lemma_lex_irreflexive(a.drop_first());
    }
}

pub proof fn lemma_lex_transitive(a: Seq<char>, b: Seq<char>, c: Seq<char>)
    requires
        lex_lt(a, b),
        lex_lt(b, c),
    ensures
        lex_lt(a, c),
    decreases a.len(),
{
    if a.len() > 0 && b.len() > 0 && c.len() > 0 && a[0] == b[0] && b[0] == c[0] {
        lemma_lex_transitive(a.drop_first(), b.drop_first(), c.drop_first());
    }
}

pub proof fn lemma_lex_total(a: Seq<char>, b: Seq<char>)
    ensures
        lex_lt(a, b) || a == b || lex_lt(b, a),
    decreases a.len(),
{
    if a.len() > 0 && b.len() > 0 && a[0] == b[0] {
        lemma_lex_total(a.drop_first(), b.drop_first());
        if a.drop_first() == b.drop_first() {
            assert forall|i: int| 0 <= i < a.len() implies a[i] == b[i] by {
                if i > 0 {
                    assert(a[i] == a.drop_first()[i - 1]);
                    assert(b[i] == b.drop_first()[i - 1]);
                }
            }
            assert(a =~= b);
        }
    } else if a.len() == 0 && b.len() == 0 {
        assert(a =~= b);
    }
}

pub fn lex_less(a: &Vec<char>, b: &Vec<char>) -> (r: bool)
    ensures
        r == lex_lt(a@, b@),
{
    let mut k: usize = 0;
    assert(a@.subrange(0, a@.len() as int) =~= a@);
    assert(b@.subrange(0, b@.len() as int) =~= b@);
    while k < a.len() && k < b.len() && a[k] == b[k]
        invariant
            k <= a@.len(),
            k <= b@.len(),
            lex_lt(a@, b@) == lex_lt(a@.subrange(k as int, a@.len() as int), b@.subrange(
                k as int,
                b@.len() as int,
            )),
        decreases a.len() - k,
    {
        let ghost sa = a@.subrange(k as int, a@.len() as int);
        let ghost sb = b@.subrange(k as int, b@.len() as int);
        assert(sa.drop_first() =~= a@.subrange(k + 1, a@.len() as int));
        assert(sb.drop_first() =~= b@.subrange(k + 1, b@.len() as int));
        k = k + 1;
    }
    let ghost sa = a@.subrange(k as int, a@.len() as int);
    let ghost sb = b@.subrange(k as int, b@.len() as int);
    if k == a.len() {
        k < b.len()
    } else if k == b.len() {
        false
    } else {
        assert(sa[0] == a@[k as int] && sb[0] == b@[k as int]);
        a[k] < b[k]
    }
}

pub open spec fn views(v: Seq<String>) -> Seq<Seq<char>> {
    Seq::new(v.len(), |i: int| v[i]@)
}

pub open spec fn lex_sorted(s: Seq<Seq<char>>) -> bool {
    forall|i: int, j: int| 0 <= i < j < s.len() ==> !lex_lt(#[trigger] s[j], #[trigger] s[i])
}

/// The patch names are exactly the given names that end in `.sql` with something before it.
pub proof fn law_patch_names_are_the_sql_files(names: Seq<Seq<char>>)
    ensures
        forall|x: Seq<char>| #[trigger] sql_names(names).contains(x) <==> names.contains(x) && x.len() >= 5
            && x.subrange(x.len() - 4, x.len() as int) == seq!['.', 's', 'q', 'l'],
    decreases names.len(),
{
    if names.len() > 0 {
        law_patch_names_are_the_sql_files(names.drop_last());
        let r = sql_names(names.drop_last());
        assert forall|x: Seq<char>| #[trigger] sql_names(names).contains(x) <==> names.contains(x) && x.len() >= 5
            && x.subrange(x.len() - 4, x.len() as int) == seq!['.', 's', 'q', 'l'] by {
            vstd::seq_lib::lemma_seq_contains_after_push(r, names.last(), x);
            vstd::seq_lib::lemma_seq_contains_after_push(names.drop_last(), names.last(), x);
            assert(names.drop_last().push(names.last()) =~= names);
        }
    } else {
        assert forall|x: Seq<char>| #[trigger] sql_names(names).contains(x) <==> names.contains(x) && x.len() >= 5
            && x.subrange(x.len() - 4, x.len() as int) == seq!['.', 's', 'q', 'l'] by {
            assert(sql_names(names) =~= Seq::<Seq<char>>::empty());
        }
    }
}

/// Two sequences in code point order that hold the same strings are the same sequence: the
/// order in which patches replay, and the numbering of graph nodes, depend on the names alone.
pub proof fn law_code_point_order_is_unique(x: Seq<Seq<char>>, y: Seq<Seq<char>>)
    requires
        lex_sorted(x),
        lex_sorted(y),
        x.to_multiset() == y.to_multiset(),
    ensures
        x == y,
    decreases x.len(),
{
    broadcast use vstd::multiset::group_multiset_axioms;
    broadcast use vstd::seq_lib::group_to_multiset_ensures;

    vstd::seq_lib::to_multiset_len(x);
    vstd::seq_lib::to_multiset_len(y);
    if x.len() == 0 {
        assert(x =~= y);
    } else {
        assert(x.to_multiset().contains(x[0]));
        assert(y.to_multiset().contains(x[0]));
        assert(x.to_multiset().contains(y[0]));
        let i = choose|i: int| 0 <= i < x.len() && x[i] == y[0];
        let j = choose|j: int| 0 <= j < y.len() && y[j] == x[0];
        if i > 0 {
            assert(!lex_lt(x[i], x[0]));
        }
        if j > 0 {
            assert(!lex_lt(y[j], y[0]));
        }
        lemma_lex_total(x[0], y[0]);
        assert(x[0] == y[0]);
        assert(x.drop_first().to_multiset() =~= x.to_multiset().remove(x[0])) by {
            assert(x.remove(0) =~= x.drop_first());
        }
        assert(y.drop_first().to_multiset() =~= y.to_multiset().remove(y[0])) by {
            assert(y.remove(0) =~= y.drop_first());
        }
        let xs = x.drop_first();
        let ys = y.drop_first();
        assert forall|a: int, b: int| 0 <= a < b < xs.len() implies !lex_lt(
            #[trigger] xs[b],
            #[trigger] xs[a],
        ) by {
            assert(xs[a] == x[a + 1] && xs[b] == x[b + 1]);
        }
        assert forall|a: int, b: int| 0 <= a < b < ys.len() implies !lex_lt(
            #[trigger] ys[b],
            #[trigger] ys[a],
        ) by {
            assert(ys[a] == y[a + 1] && ys[b] == y[b + 1]);
        }
        law_code_point_order_is_unique(xs, ys);
        assert(x =~= y) by {
            assert forall|k: int| 0 <= k < x.len() implies x[k] == y[k] by {
                if k > 0 {
                    assert(x[k] == xs[k - 1] && y[k] == ys[k - 1]);
                }
            }
        }
    }
}

/// The file name has the extension `sql` (what `Path::extension` reports): it ends in `.sql`
/// and something stands before that dot.
pub open spec fn has_sql_extension(name: Seq<char>) -> bool {
    name.len() >= 5 && name.subrange(name.len() - 4, name.len() as int) == seq!['.', 's', 'q', 'l']
}

/// The names with the extension `sql`, in their order.
pub open spec fn sql_names(names: Seq<Seq<char>>) -> Seq<Seq<char>>
    decreases names.len(),
{
    if names.len() == 0 {
        Seq::empty()
    } else {
        let r = sql_names(names.drop_last());
        if has_sql_extension(names.last()) {
            r.push(names.last())
        } else {
            r
        }
    }
}

fn is_sql_file_name(name: &String) -> (r: bool)
    ensures
        r == has_sql_extension(name@),
{
    let v = chars_of(name.as_str());
    let n = v.len();
    if n < 5 {
        return false;
    }
    let r = v[n - 4] == '.' && v[n - 3] == 's' && v[n - 2] == 'q' && v[n - 1] == 'l';
    proof {
        let t = v@.subrange(n - 4, n as int);
        if r {
            assert(t =~= seq!['.', 's', 'q', 'l']);
        } else {
            if t == seq!['.', 's', 'q', 'l'] {
                assert(t[0] == '.' && t[1] == 's' && t[2] == 'q' && t[3] == 'l');
            }
        }
    }
    r
}

/// Inserts `name` after every name that does not sort after it.
fn insert_sorted(out: &mut Vec<String>, name: String)
    requires
        lex_sorted(views(old(out)@)),
    ensures
        views(final(out)@).to_multiset() == views(old(out)@).to_multiset().insert(name@),
        lex_sorted(views(final(out)@)),
{
    let nv = chars_of(name.as_str());
    let mut p: usize = 0;
    let ghost before = out@;
    let mut keep_going = true;
    while keep_going && p < out.len()
        invariant
            p <= out@.len(),
            out@ == before,
            nv@ == name@,
            forall|j: int| 0 <= j < p ==> !lex_lt(name@, #[trigger] views(out@)[j]),
            !keep_going ==> p < out@.len() && lex_lt(name@, views(out@)[p as int]),
        decreases out.len() - p, (if keep_going { 1int } else { 0int }),
    {
        let cur = chars_of(out[p].as_str());
        if lex_less(&nv, &cur) {
            keep_going = false;
        } else {
            p = p + 1;
        }
    }
    out.insert(p, name);
    proof {
        let bm = views(before);
        let ms = views(out@);
        assert(ms =~= bm.insert(p as int, name@));
        vstd::seq_lib::to_multiset_insert(bm, p as int, name@);
        assert forall|i: int, j: int| 0 <= i < j < ms.len() implies !lex_lt(
            #[trigger] ms[j],
            #[trigger] ms[i],
        ) by {
            if j < p {
                assert(ms[i] == bm[i] && ms[j] == bm[j]);
            } else if j == p {
                assert(ms[i] == bm[i]);
            } else if i < p {
                assert(ms[i] == bm[i] && ms[j] == bm[j - 1]);
            } else if i == p {
                assert(ms[j] == bm[j - 1]);
                assert(lex_lt(name@, bm[p as int]));
                if lex_lt(bm[j - 1], name@) {
                    lemma_lex_transitive(bm[j - 1], name@, bm[p as int]);
                    if j - 1 > p {
                        assert(!lex_lt(bm[j - 1], bm[p as int]));
                    } else {
                        lemma_lex_irreflexive(bm[p as int]);
                    }
                }
            } else {
                assert(ms[i] == bm[i - 1] && ms[j] == bm[j - 1]);
            }
        }
    }
}

/// The patch files among the names of a directory's entries: those with the extension
/// `sql`, in ascending code point order.
pub fn patch_file_names(names: &Vec<String>) -> (r: Vec<String>)
    ensures
        views(r@).to_multiset() == sql_names(views(names@)).to_multiset(),
        lex_sorted(views(r@)),
{
    let mut out: Vec<String> = Vec::new();
    let mut i: usize = 0;
    proof {
        broadcast use vstd::multiset::group_multiset_axioms;

        assert(views(out@) =~= Seq::<Seq<char>>::empty());
        vstd::seq_lib::to_multiset_len(views(out@));
        vstd::multiset::lemma_multiset_empty_len(views(out@).to_multiset());
        assert(views(names@).subrange(0, 0) =~= Seq::<Seq<char>>::empty());
        vstd::seq_lib::to_multiset_len(sql_names(views(names@).subrange(0, 0)));
        vstd::multiset::lemma_multiset_empty_len(
            sql_names(views(names@).subrange(0, 0)).to_multiset(),
        );
    }
    while i < names.len()
        invariant
            i <= names@.len(),
            views(out@).to_multiset() == sql_names(views(names@).subrange(0, i as int)).to_multiset(),
            lex_sorted(views(out@)),
        decreases names.len() - i,
    {
        let ghost pre = views(names@).subrange(0, i as int);
        let ghost post = views(names@).subrange(0, i + 1);
        proof {
            assert(post.drop_last() =~= pre);
            assert(post.last() == names@[i as int]@);
        }
        if is_sql_file_name(&names[i]) {
            let name = names[i].clone();
            insert_sorted(&mut out, name);
            proof {
                vstd::seq_lib::to_multiset_build(sql_names(pre), names@[i as int]@);
            }
        }
        i = i + 1;
    }
    proof {
        assert(views(names@).subrange(0, names@.len() as int) =~= views(names@));
    }
    out
}

/// One patch file as the manifest lists it.
#[derive(Clone, Debug)]
pub struct PatchManifestEntry {
    /// The position of the patch in file name order, counted from 1.
    pub ordinal: i64,
    pub filename: String,
    /// `sha256:` and the lowercase hex SHA-256 digest of the file's content.
    pub checksum: String,
    pub path: String,
}

/// The SHA-256 digest of some bytes.
pub uninterp spec fn sha256(data: Seq<u8>) -> Seq<u8>;

/// Calls `Sha256::digest` from the sha2 crate; the contract claims that the result is the
/// named digest of the argument and, as the output type `GenericArray<u8, U32>` fixes, 32
/// bytes long.
#[verifier::external_body]
fn sha256_digest(data: &[u8]) -> (r: Vec<u8>)
    ensures
        r@ == sha256(data@),
        r@.len() == 32,
{
    Sha256::digest(data).to_vec()
}

pub open spec fn hex_char(d: nat) -> char {
    if d < 10 {
        (48 + d) as char
    } else {
        (87 + d) as char
    }
}

/// The lowercase hexadecimal form of some bytes, two digits per byte.
pub open spec fn hex_lower(bytes: Seq<u8>) -> Seq<char>
    decreases bytes.len(),
{
    if bytes.len() == 0 {
        Seq::empty()
    } else {
        hex_lower(bytes.drop_last()) + seq![
            hex_char((bytes.last() / 16) as nat),
            hex_char((bytes.last() % 16) as nat),
        ]
    }
}

fn hex_digit(d: u8) -> (c: char)
    requires
        d < 16,
    ensures
        c == hex_char(d as nat),
{
    if d < 10 {
        (48u8 + d) as char
    } else {
        (87u8 + d) as char
    }
}

pub fn hex_encode(bytes: &[u8]) -> (r: String)
    ensures
        r@ == hex_lower(bytes@),
{
    let mut out = String::new();
    let mut i: usize = 0;
    while i < bytes.len()
        invariant
            i <= bytes@.len(),
            out@ == hex_lower(bytes@.subrange(0, i as int)),
        decreases bytes.len() - i,
    {
        let b = bytes[i];
        push_char(&mut out, hex_digit(b / 16));
        push_char(&mut out, hex_digit(b % 16));
        assert(bytes@.subrange(0, i + 1).drop_last() =~= bytes@.subrange(0, i as int));
        i = i + 1;
        assert(out@ =~= hex_lower(bytes@.subrange(0, i as int)));
    }
    assert(bytes@.subrange(0, bytes@.len() as int) =~= bytes@);
    out
}

pub open spec fn checksum_of(content: Seq<u8>) -> Seq<char> {
    "sha256:"@ + hex_lower(sha256(content))
}

proof fn lemma_hex_lower_shape(bytes: Seq<u8>)
    ensures
        hex_lower(bytes).len() == 2 * bytes.len(),
        forall|i: int| 0 <= i < hex_lower(bytes).len() ==> is_lower_hex(#[trigger] hex_lower(bytes)[i]),
    decreases bytes.len(),
{
    if bytes.len() > 0 {
        let init = bytes.drop_last();
        lemma_hex_lower_shape(init);
        let hi = (bytes.last() / 16) as nat;
        let lo = (bytes.last() % 16) as nat;
        let h = hex_lower(bytes);
        let pre = hex_lower(init);
        assert(h == pre + seq![hex_char(hi), hex_char(lo)]);
        assert(is_lower_hex(hex_char(hi)));
        assert(is_lower_hex(hex_char(lo)));
        assert forall|i: int| 0 <= i < h.len() implies is_lower_hex(#[trigger] h[i]) by {
            if i < pre.len() {
                assert(h[i] == pre[i]);
            }
        }
    }
}

/// The value of a lowercase hexadecimal digit.
pub open spec fn hex_value(c: char) -> int {
    if '0' <= c && c <= '9' {
        c as int - 48
    } else {
        c as int - 87
    }
}

/// The hexadecimal form of some bytes has two digits per byte, and the two digits at
/// positions `2k` and `2k + 1` read back as byte `k`: high nibble first.
pub proof fn law_hex_reads_back(bytes: Seq<u8>)
    ensures
        hex_lower(bytes).len() == 2 * bytes.len(),
        forall|k: int|
            0 <= k < bytes.len() ==> hex_value(hex_lower(bytes)[2 * k]) * 16 + hex_value(
                hex_lower(bytes)[2 * k + 1],
            ) == #[trigger] bytes[k],
    decreases bytes.len(),
{
    lemma_hex_lower_shape(bytes);
    if bytes.len() > 0 {
        let init = bytes.drop_last();
        law_hex_reads_back(init);
        let b = bytes.last();
        let hi = (b / 16) as nat;
        let lo = (b % 16) as nat;
        let h = hex_lower(bytes);
        let pre = hex_lower(init);
        assert(h == pre + seq![hex_char(hi), hex_char(lo)]);
        assert(hex_value(hex_char(hi)) == hi);
        assert(hex_value(hex_char(lo)) == lo);
        assert forall|k: int| 0 <= k < bytes.len() implies hex_value(h[2 * k]) * 16 + hex_value(
            h[2 * k + 1],
        ) == #[trigger] bytes[k] by {
            if k < init.len() {
                assert(h[2 * k] == pre[2 * k]);
                assert(h[2 * k + 1] == pre[2 * k + 1]);
                assert(init[k] == bytes[k]);
            } else {
                assert(h[2 * k] == hex_char(hi));
                assert(h[2 * k + 1] == hex_char(lo));
                assert(bytes[k] == b);
                assert(hi * 16 + lo == b);
            }
        }
    }
}

/// A manifest checksum: `sha256:` and 64 lowercase hexadecimal digits.
pub open spec fn is_checksum_text(s: Seq<char>) -> bool {
    &&& s.len() == 71
    &&& s.subrange(0, 7) == "sha256:"@
    &&& forall|i: int| 7 <= i < 71 ==> is_lower_hex(#[trigger] s[i])
}

/// The checksum that the manifest records for a patch's content.
pub fn checksum(content: &[u8]) -> (r: String)
    ensures
        r@ == checksum_of(content@),
        is_checksum_text(r@),
{
    let digest = sha256_digest(content);
    let mut out = String::from_str("sha256:");
    let hex = hex_encode(digest.as_slice());
    out.append(hex.as_str());
    proof {
        reveal_strlit("sha256:");
        lemma_hex_lower_shape(digest@);
        assert(out@.subrange(0, 7) =~= "sha256:"@);
        assert forall|i: int| 7 <= i < 71 implies is_lower_hex(#[trigger] out@[i]) by {
            assert(out@[i] == hex@[i - 7]);
        }
    }
    out
}

/// The manifest of the patch files `names` of `dir`, whose contents are `contents`: the
/// entries in the given order, numbered from 1.
pub fn manifest_entries(dir: &str, names: &Vec<String>, contents: &Vec<Vec<u8>>) -> (r: Vec<
    PatchManifestEntry,
>)
    requires
        names@.len() == contents@.len(),
        names@.len() < i64::MAX,
    ensures
        r@.len() == names@.len(),
        forall|k: int|
            0 <= k < r@.len() ==> {
                &&& (#[trigger] r@[k]).ordinal == k + 1
                &&& r@[k].filename@ == names@[k]@
                &&& r@[k].checksum@ == checksum_of(contents@[k]@)
                &&& is_checksum_text(r@[k].checksum@)
                &&& r@[k].path@ == join_path(dir@, names@[k]@)
            },
{
    let mut out: Vec<PatchManifestEntry> = Vec::new();
    let mut i: usize = 0;
    while i < names.len()
        invariant
            i <= names@.len(),
            names@.len() == contents@.len(),
            names@.len() < i64::MAX,
            out@.len() == i,
            forall|k: int|
                0 <= k < i ==> {
                    &&& (#[trigger] out@[k]).ordinal == k + 1
                    &&& out@[k].filename@ == names@[k]@
                    &&& out@[k].checksum@ == checksum_of(contents@[k]@)
                    &&& is_checksum_text(out@[k].checksum@)
                    &&& out@[k].path@ == join_path(dir@, names@[k]@)
                },
        decreases names.len() - i,
    {
        let entry = PatchManifestEntry {
            ordinal: (i + 1) as i64,
            filename: names[i].clone(),
            checksum: checksum(contents[i].as_slice()),
            path: join(dir, names[i].as_str()),
        };
        out.push(entry);
        i = i + 1;
    }
    out
}

/// The applied patches that the database records match the files: same number, and the same
/// ordinal, file name and checksum at every position.
pub fn manifests_match(files: &Vec<PatchManifestEntry>, applied: &Vec<(i64, String, String)>) -> (r:
    bool)
    ensures
        r == (files@.len() == applied@.len() && forall|k: int|
            0 <= k < files@.len() ==> {
                &&& (#[trigger] files@[k]).ordinal == applied@[k].0
                &&& files@[k].filename@ == applied@[k].1@
                &&& files@[k].checksum@ == applied@[k].2@
            }),
{
    if files.len() != applied.len() {
        return false;
    }
    let mut i: usize = 0;
    while i < files.len()
        invariant
            i <= files@.len(),
            files@.len() == applied@.len(),
            forall|k: int|
                0 <= k < i ==> {
                    &&& (#[trigger] files@[k]).ordinal == applied@[k].0
                    &&& files@[k].filename@ == applied@[k].1@
                    &&& files@[k].checksum@ == applied@[k].2@
                },
        decreases files.len() - i,
    {
        let e = &files[i];
        let a = &applied[i];
        if e.ordinal != a.0 || e.filename != a.1 || e.checksum != a.2 {
            return false;
        }
        i = i + 1;
    }
    true
}

/// The file name of a new patch: `p<timestamp>_<document id>_<kind>.sql`, which sorts by time
/// and cannot collide between branches.
pub open spec fn patch_name(timestamp: Seq<char>, doc_uuid: Seq<char>, kind: Seq<char>) -> Seq<
    char,
> {
    seq!['p'] + timestamp + seq!['_'] + doc_uuid + seq!['_'] + kind + ".sql"@
}

/// Patches written at the same time for different documents get different names, so
/// patches from parallel branches never collide.
pub proof fn law_patch_names_tell_documents_apart(
    timestamp: Seq<char>,
    a: Seq<char>,
    b: Seq<char>,
    kind: Seq<char>,
)
    requires
        patch_name(timestamp, a, kind) == patch_name(timestamp, b, kind),
    ensures
        a == b,
{
    reveal_strlit(".sql");
    let na = patch_name(timestamp, a, kind);
    let nb = patch_name(timestamp, b, kind);
    assert(na.len() == timestamp.len() + a.len() + kind.len() + 7);
    assert(nb.len() == timestamp.len() + b.len() + kind.len() + 7);
    let start: int = timestamp.len() as int + 2;
    assert(a =~= na.subrange(start, start + a.len()));
    assert(b =~= nb.subrange(start, start + b.len()));
}

pub fn patch_file_name(timestamp: &str, doc_uuid: &str, kind: &str) -> (r: String)
    ensures
        r@ == patch_name(timestamp@, doc_uuid@, kind@),
{
    let mut out = String::from_str("p");
    out.append(timestamp);
    out.append("_");
    out.append(doc_uuid);
    out.append("_");
    out.append(kind);
    out.append(".sql");
    proof {
        reveal_strlit("p");
        reveal_strlit("_");
    }
    out
}

/// The format of the time stamp in patch names: year, month, day, `T`, hour, minute,
/// second, millisecond, `Z`, with no separators.
pub const PATCH_STAMP_FORMAT: &'static str = "%Y%m%dT%H%M%S%3fZ";

/// The shape of every stamp that `PATCH_STAMP_FORMAT` gives: the year, four digits of month
/// and day, `T`, nine digits of hour, minute, second and millisecond, `Z`. Up to the year
/// 9999 that is 19 characters.
pub open spec fn is_patch_stamp(t: Seq<char>) -> bool {
    let n = t.len() as int;
    &&& n >= 19
    &&& is_year_text(t.subrange(0, n - 15))
    &&& all_digits(t.subrange(n - 15, n - 11))
    &&& t[n - 11] == 'T'
    &&& all_digits(t.subrange(n - 10, n - 1))
    &&& t[n - 1] == 'Z'
}

/// Formats the current UTC time with chrono (`Utc::now` and `DateTime::format`) in the
/// format `fmt`, which must be `PATCH_STAMP_FORMAT`. The value depends on the clock; the
/// contract claims the shape that chrono's `%Y`, `%m`, `%d`, `%H`, `%M`, `%S` (zero-padded) and
/// `%3f` (three digits, no dot) give every value.
#[verifier::external_body]
fn patch_timestamp(fmt: &str) -> (r: String)
    requires
        fmt@ == PATCH_STAMP_FORMAT@,
    ensures
        is_patch_stamp(r@),
{
    chrono::Utc::now().format(fmt).to_string()
}

/// The log of SQL patches of the memory bank at a root.
#[derive(Clone, Debug)]
pub struct SqlPatchLog {
    pub root: String,
}

impl SqlPatchLog {
    pub fn new(root: &str) -> (r: SqlPatchLog)
        ensures
            r.root@ == root@,
    {
        SqlPatchLog { root: String::from_str(root) }
    }

    /// The file name for a new patch of the given kind about the given document, stamped
    /// with the current time.
    pub fn new_patch_file_name(&self, kind: &str, doc_uuid: &str) -> (r: String)
        ensures
            exists|t: Seq<char>| is_patch_stamp(t) && r@ == patch_name(t, doc_uuid@, kind@),
    {
        let ts = patch_timestamp(PATCH_STAMP_FORMAT);
        patch_file_name(ts.as_str(), doc_uuid, kind)
    }
}

} // verus!
