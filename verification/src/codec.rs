//! The persisted form of the store: one record per line, the three fields
//! separated by single spaces, each line closed by a newline.
//!
//! `encode_recs` is the mathematical description of that form and
//! `decode_recs` its inverse; `render_entries` and `parse_entries` are the
//! executable functions, each proved against its description. Decoding is
//! strict: content that is not exactly an encoded record sequence is
//! rejected as a whole, rather than read partially.

use vstd::prelude::*;

use crate::password::PasswordEntry;

verus! {

/// The mathematical value of one record: the views of its service, username
/// and password.
pub type Record = (Seq<char>, Seq<char>, Seq<char>);

/// The record views of a sequence of entries.
pub open spec fn views_of(es: Seq<PasswordEntry>) -> Seq<Record> {
    es.map_values(|e: PasswordEntry| e@)
}

/// True when `c` occurs nowhere in `s`.
pub open spec fn no_char(s: Seq<char>, c: char) -> bool {
    forall|i: int| 0 <= i < s.len() ==> s[i] != c
}

/// A record that the line format carries faithfully: no separator characters
/// inside the fields that are delimited by them. The password is the last
/// field of its line, so it may contain spaces, but not a newline.
pub open spec fn rec_ok(r: Record) -> bool {
    &&& no_char(r.0, ' ')
    &&& no_char(r.0, '\n')
    &&& no_char(r.1, ' ')
    &&& no_char(r.1, '\n')
    &&& no_char(r.2, '\n')
}

/// One encoded line, newline included.
pub open spec fn encode_rec(r: Record) -> Seq<char> {
    r.0 + seq![' '] + r.1 + seq![' '] + r.2 + seq!['\n']
}

/// The encoded form of a whole record sequence: its lines, concatenated.
pub open spec fn encode_recs(rs: Seq<Record>) -> Seq<char>
    decreases rs.len(),
{
    if rs.len() == 0 {
        Seq::empty()
    } else {
        encode_rec(rs[0]) + encode_recs(rs.drop_first())
    }
}

/// The position of the first occurrence of `c` in `s`, if any.
pub open spec fn find_char(s: Seq<char>, c: char) -> Option<int>
    decreases s.len(),
{
    if s.len() == 0 {
        None
    } else if s[0] == c {
        Some(0int)
    } else {
        match find_char(s.drop_first(), c) {
            Some(i) => Some(i + 1),
            None => None,
        }
    }
}

/// What one line (without its newline) decodes to: the text up to the first
/// space is the service, from there to the next space the username, and all
/// the rest the password.
pub open spec fn decode_line(line: Seq<char>) -> Option<Record> {
    match find_char(line, ' ') {
        None => None,
        Some(i) => match find_char(line.skip(i + 1), ' ') {
            None => None,
            Some(j) => Some(
                (line.take(i), line.skip(i + 1).take(j), line.skip(i + 1).skip(j + 1)),
            ),
        },
    }
}

/// What a whole content decodes to: record by record, each line closed by a
/// newline; `None` when any line is malformed or the last line is unclosed.
pub open spec fn decode_recs(s: Seq<char>) -> Option<Seq<Record>>
    decreases s.len(),
    via decode_recs_decreases
{
    if s.len() == 0 {
        Some(Seq::empty())
    } else {
        match find_char(s, '\n') {
            None => None,
            Some(n) => match decode_line(s.take(n)) {
                None => None,
                Some(r) => match decode_recs(s.skip(n + 1)) {
                    None => None,
                    Some(rest) => Some(seq![r] + rest),
                },
            },
        }
    }
}

#[via_fn]
proof fn decode_recs_decreases(s: Seq<char>) {
    lemma_find_char_props(s, '\n');
}

/// `find_char` finds the first occurrence: where it returns an index, that
/// index holds `c` and nothing before it does; where it returns `None`, no
/// index holds `c`.
pub proof fn lemma_find_char_props(s: Seq<char>, c: char)
    ensures
        match find_char(s, c) {
            Some(i) => 0 <= i < s.len() && s[i] == c && (forall|j: int| 0 <= j < i ==> s[j] != c),
            None => no_char(s, c),
        },
    decreases s.len(),
{
    if s.len() == 0 {
    } else if s[0] == c {
    } else {
        lemma_find_char_props(s.drop_first(), c);
        match find_char(s.drop_first(), c) {
            Some(i) => {
                assert(s.drop_first()[i] == s[i + 1]);
                assert forall|j: int| 0 <= j < i + 1 implies s[j] != c by {
                    if j > 0 {
                        assert(s.drop_first()[j - 1] == s[j]);
                    }
                }
            },
            None => {
                assert forall|j: int| 0 <= j < s.len() implies s[j] != c by {
                    if j > 0 {
                        assert(s.drop_first()[j - 1] == s[j]);
                    }
                }
            },
        }
    }
}

/// Encoding one more record appends one more line.
pub proof fn lemma_encode_recs_snoc(rs: Seq<Record>, r: Record)
    ensures
        encode_recs(rs.push(r)) == encode_recs(rs) + encode_rec(r),
    decreases rs.len(),
{
    if rs.len() == 0 {
        assert(rs.push(r)[0] == r);
        assert(rs.push(r).drop_first() =~= Seq::<Record>::empty());
        assert(encode_recs(rs.push(r).drop_first()) == Seq::<char>::empty());
        assert(encode_recs(rs.push(r)) == encode_rec(r) + Seq::<char>::empty());
        assert(encode_rec(r) + Seq::<char>::empty() =~= encode_rec(r));
        assert(encode_recs(rs) + encode_rec(r) =~= encode_rec(r));
    } else {
        assert(rs.push(r).drop_first() =~= rs.drop_first().push(r));
        lemma_encode_recs_snoc(rs.drop_first(), r);
        assert(encode_recs(rs.push(r)) == encode_rec(rs[0]) + (encode_recs(rs.drop_first())
            + encode_rec(r)));
        assert(encode_rec(rs[0]) + (encode_recs(rs.drop_first()) + encode_rec(r)) =~= (encode_rec(
            rs[0],
        ) + encode_recs(rs.drop_first())) + encode_rec(r));
    }
}

/// The characters of one encoded line: its length, the newline at its end,
/// and no newline anywhere before that.
proof fn lemma_encode_rec_chars(r: Record)
    requires
        rec_ok(r),
    ensures
        encode_rec(r).len() == r.0.len() + r.1.len() + r.2.len() + 3,
        encode_rec(r)[encode_rec(r).len() - 1] == '\n',
        forall|j: int| 0 <= j < encode_rec(r).len() - 1 ==> encode_rec(r)[j] != '\n',
{
    let e = encode_rec(r);
    let a = r.0.len() as int;
    let b = r.1.len() as int;
    assert forall|j: int| 0 <= j < e.len() - 1 implies e[j] != '\n' by {
        if j < a {
            assert(e[j] == r.0[j]);
        } else if j == a {
            assert(e[j] == ' ');
        } else if j < a + 1 + b {
            assert(e[j] == r.1[j - a - 1]);
        } else if j == a + 1 + b {
            assert(e[j] == ' ');
        } else {
            assert(e[j] == r.2[j - a - b - 2]);
        }
    }
}

/// A faithfully encodable record's line decodes back to the record itself.
proof fn lemma_decode_line_encoded(r: Record)
    requires
        rec_ok(r),
    ensures
        decode_line(r.0 + seq![' '] + r.1 + seq![' '] + r.2) == Some(r),
{
    let line = r.0 + seq![' '] + r.1 + seq![' '] + r.2;
    let a = r.0.len() as int;
    let b = r.1.len() as int;
    assert(line[a] == ' ');
    assert(forall|j: int| 0 <= j < a ==> line[j] == r.0[j]);
    lemma_find_char_props(line, ' ');
    assert(find_char(line, ' ') == Some(a));
    let rest = line.skip(a + 1);
    assert(rest =~= r.1 + seq![' '] + r.2);
    assert(rest[b] == ' ');
    assert(forall|j: int| 0 <= j < b ==> rest[j] == r.1[j]);
    lemma_find_char_props(rest, ' ');
    assert(find_char(rest, ' ') == Some(b));
    assert(line.take(a) =~= r.0);
    assert(rest.take(b) =~= r.1);
    assert(rest.skip(b + 1) =~= r.2);
}

/// Decoding inverts encoding: a sequence of faithfully encodable records is
/// recovered exactly from its encoded form.
pub proof fn lemma_decode_encode(rs: Seq<Record>)
    requires
        forall|i: int| 0 <= i < rs.len() ==> rec_ok(#[trigger] rs[i]),
    ensures
        decode_recs(encode_recs(rs)) == Some(rs),
    decreases rs.len(),
{
    if rs.len() == 0 {
        assert(Seq::<Record>::empty() =~= rs);
    } else {
        let r = rs[0];
        let s = encode_recs(rs);
        let tail = encode_recs(rs.drop_first());
        let e = encode_rec(r);
        lemma_encode_rec_chars(r);
        let ln = e.len() as int;
        assert(s == e + tail);
        assert(s[ln - 1] == '\n');
        assert forall|j: int| 0 <= j < ln - 1 implies s[j] != '\n' by {
            assert(s[j] == e[j]);
        }
        lemma_find_char_props(s, '\n');
        assert(find_char(s, '\n') == Some(ln - 1));
        assert(s.take(ln - 1) =~= r.0 + seq![' '] + r.1 + seq![' '] + r.2);
        lemma_decode_line_encoded(r);
        assert(decode_line(s.take(ln - 1)) == Some(r));
        assert(s.skip(ln) =~= tail);
        lemma_decode_encode(rs.drop_first());
        assert(decode_recs(s) == Some(seq![r] + rs.drop_first()));
        assert(seq![r] + rs.drop_first() =~= rs);
    }
}

/// Character-for-character comparison of two string slices.
pub fn str_eq(a: &str, b: &str) -> (r: bool)
    ensures
        r == (a@ == b@),
{
    let n = a.unicode_len();
    let m = b.unicode_len();
    if n != m {
        return false;
    }
    let mut i: usize = 0;
    while i < n
        invariant
            0 <= i <= n,
            n == a@.len(),
            n == b@.len(),
            forall|j: int| 0 <= j < i ==> a@[j] == b@[j],
        decreases n - i,
    {
        if a.get_char(i) != b.get_char(i) {
            return false;
        }
        i += 1;
    }
    proof {
        assert(a@ =~= b@);
    }
    true
}

/// The first position in `[from, upto)` holding `c`, scanning forward.
fn scan_char(s: &str, from: usize, upto: usize, c: char) -> (r: Option<usize>)
    requires
        from <= upto,
        upto <= s@.len(),
    ensures
        match r {
            Some(k) => from <= k < upto && s@[k as int] == c && (forall|j: int|
                from <= j < k ==> s@[j] != c),
            None => forall|j: int| from <= j < upto ==> s@[j] != c,
        },
{
    let mut i: usize = from;
    while i < upto
        invariant
            from <= i <= upto,
            upto <= s@.len(),
            forall|j: int| from <= j < i ==> s@[j] != c,
        decreases upto - i,
    {
        if s.get_char(i) == c {
            return Some(i);
        }
        i += 1;
    }
    None
}

/// `decode_recs` with a prefix of already-decoded records in front.
spec fn with_prefix(pre: Seq<Record>, rest: Option<Seq<Record>>) -> Option<Seq<Record>> {
    match rest {
        Some(t) => Some(pre + t),
        None => None,
    }
}

/// Parse a whole content into entries, exactly as `decode_recs` describes;
/// `None` when the content is not a well-formed encoded record sequence.
pub fn parse_entries(content: &str) -> (r: Option<Vec<PasswordEntry>>)
    ensures
        match r {
            Some(v) => decode_recs(content@) == Some(views_of(v@)),
            None => decode_recs(content@) is None,
        },
{
    let n = content.unicode_len();
    let mut out: Vec<PasswordEntry> = Vec::new();
    let mut p: usize = 0;
    proof {
        assert(content@.skip(0) =~= content@);
        assert(views_of(out@) =~= Seq::<Record>::empty());
        assert(with_prefix(views_of(out@), decode_recs(content@)) == decode_recs(content@));
    }
    while p < n
        invariant
            p <= n,
            n == content@.len(),
            decode_recs(content@) == with_prefix(
                views_of(out@),
                decode_recs(content@.skip(p as int)),
            ),
        decreases n - p,
    {
        let ghost s = content@;
        let ghost t = s.skip(p as int);
        let nl = scan_char(content, p, n, '\n');
        match nl {
            None => {
                proof {
                    assert forall|x: int| 0 <= x < t.len() implies t[x] != '\n' by {
                        assert(t[x] == s[x + p]);
                    }
                    lemma_find_char_props(t, '\n');
                    assert(decode_recs(t) is None);
                }
                return None;
            },
            Some(k) => {
                proof {
                    assert(t[(k - p) as int] == s[k as int]);
                    assert forall|x: int| 0 <= x < k - p implies t[x] != '\n' by {
                        assert(t[x] == s[x + p]);
                    }
                    lemma_find_char_props(t, '\n');
                    assert(find_char(t, '\n') == Some(k - p));
                }
                let ghost line = t.take(k - p);
                proof {
                    assert(line =~= s.subrange(p as int, k as int));
                }
                let sp1 = scan_char(content, p, k, ' ');
                match sp1 {
                    None => {
                        proof {
                            assert forall|x: int| 0 <= x < line.len() implies line[x] != ' ' by {
                                assert(line[x] == s[x + p]);
                            }
                            lemma_find_char_props(line, ' ');
                            assert(decode_line(line) is None);
                            assert(decode_recs(t) is None);
                        }
                        return None;
                    },
                    Some(i) => {
                        proof {
                            assert(line[(i - p) as int] == s[i as int]);
                            assert forall|x: int| 0 <= x < i - p implies line[x] != ' ' by {
                                assert(line[x] == s[x + p]);
                            }
                            lemma_find_char_props(line, ' ');
                            assert(find_char(line, ' ') == Some(i - p));
                        }
                        let ghost rest2 = line.skip(i - p + 1);
                        proof {
                            assert(rest2 =~= s.subrange(i + 1, k as int));
                        }
                        let sp2 = scan_char(content, i + 1, k, ' ');
                        match sp2 {
                            None => {
                                proof {
                                    assert forall|x: int| 0 <= x < rest2.len() implies rest2[x]
                                        != ' ' by {
                                        assert(rest2[x] == s[x + i + 1]);
                                    }
                                    lemma_find_char_props(rest2, ' ');
                                    assert(decode_line(line) is None);
                                    assert(decode_recs(t) is None);
                                }
                                return None;
                            },
                            Some(j) => {
                                let service = content.substring_char(p, i).to_owned();
                                let username = content.substring_char(i + 1, j).to_owned();
                                let password = content.substring_char(j + 1, k).to_owned();
                                let e = PasswordEntry::new(service, username, password);
                                proof {
                                    assert(rest2[(j - i - 1) as int] == s[j as int]);
                                    assert forall|x: int| 0 <= x < j - i - 1 implies rest2[x]
                                        != ' ' by {
                                        assert(rest2[x] == s[x + i + 1]);
                                    }
                                    lemma_find_char_props(rest2, ' ');
                                    assert(find_char(rest2, ' ') == Some(j - i - 1));
                                    assert(line.take(i - p) =~= s.subrange(p as int, i as int));
                                    assert(rest2.take(j - i - 1) =~= s.subrange(i + 1, j as int));
                                    assert(rest2.skip(j - i) =~= s.subrange(j + 1, k as int));
                                    assert(e@.0 =~= line.take(i - p));
                                    assert(e@.1 =~= rest2.take(j - i - 1));
                                    assert(e@.2 =~= rest2.skip(j - i - 1 + 1));
                                    assert(decode_line(line) == Some(e@));
                                    assert(t.skip(k - p + 1) =~= s.skip(k + 1));
                                    assert(decode_recs(t) == with_prefix(
                                        seq![e@],
                                        decode_recs(s.skip(k + 1)),
                                    ));
                                    assert(views_of(out@.push(e)) =~= views_of(out@).push(e@));
                                    match decode_recs(s.skip(k + 1)) {
                                        Some(more) => {
                                            assert(views_of(out@) + (seq![e@] + more) =~= views_of(
                                                out@,
                                            ).push(e@) + more);
                                        },
                                        None => {},
                                    }
                                }
                                out.push(e);
                                p = k + 1;
                            },
                        }
                    },
                }
            },
        }
    }
    proof {
        assert(content@.skip(p as int) =~= Seq::<char>::empty());
        assert(decode_recs(content@.skip(p as int)) == Some(Seq::<Record>::empty()));
        assert(views_of(out@) + Seq::<Record>::empty() =~= views_of(out@));
    }
    Some(out)
}

/// Render entries into the persisted form, exactly as `encode_recs`
/// describes.
pub fn render_entries(es: &Vec<PasswordEntry>) -> (r: String)
    ensures
        r@ == encode_recs(views_of(es@)),
{
    let mut out = String::new();
    let n = es.len();
    let mut idx: usize = 0;
    proof {
        assert(views_of(es@.take(0)) =~= Seq::<Record>::empty());
    }
    while idx < n
        invariant
            idx <= n,
            n == es@.len(),
            out@ == encode_recs(views_of(es@.take(idx as int))),
        decreases n - idx,
    {
        let ghost before = out@;
        let e = &es[idx];
        out.append(e.service.as_str());
        out.append(" ");
        out.append(e.username.as_str());
        out.append(" ");
        out.append(e.password.as_str());
        out.append("\n");
        proof {
            reveal_strlit(" ");
            reveal_strlit("\n");
            assert(" "@ =~= seq![' ']);
            assert("\n"@ =~= seq!['\n']);
            let ghost r = es@[idx as int]@;
            assert(out@ =~= before + encode_rec(r));
            assert(views_of(es@.take(idx + 1)) =~= views_of(es@.take(idx as int)).push(r));
            lemma_encode_recs_snoc(views_of(es@.take(idx as int)), r);
        }
        idx += 1;
    }
    proof {
        assert(es@.take(n as int) =~= es@);
    }
    out
}

} // verus!
