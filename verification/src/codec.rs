use vstd::prelude::*;
use crate::registry::ActionRegistry;
use crate::registry::ActionSpec;
use crate::registry::SpecAction;
use crate::registry::SpecRegistry;
use crate::text::ascii_bytes;
use crate::text::lit_bytes;

verus! {

// ---------------------------------------------------------------------
// The configuration text format.
//
// A registry is persisted as five TOML-style sections in canonical
// order, separated by blank lines:
//
//     [commands.shutdown]
//     label = "(s) Shutdown"
//     command = "systemctl poweroff"
//     key = "s"
//
// `label` and `command` are quoted strings in which `"` and `\` are
// escaped with a backslash; the `key` line is optional and carries a
// one-byte quoted string. The functions below pin the format exactly:
// `toml_bytes` is the canonical serialized form, `to_toml` produces it,
// and `parse_toml` accepts precisely the serialized forms and nothing
// else.
// ---------------------------------------------------------------------

/// The bytes of an ASCII literal.
pub open spec fn lit(s: &str) -> Seq<u8> {
    ascii_bytes(s@)
}

/// Whether a byte must be escaped inside a quoted string.
pub open spec fn is_special(b: u8) -> bool {
    b == '"' as u8 || b == '\\' as u8
}

/// The escaped form of one byte.
pub open spec fn esc_byte(b: u8) -> Seq<u8> {
    if is_special(b) {
        seq!['\\' as u8, b]
    } else {
        seq![b]
    }
}

/// The escaped form of a byte string.
pub open spec fn esc(s: Seq<u8>) -> Seq<u8>
    decreases s.len(),
{
    if s.len() == 0 {
        Seq::empty()
    } else {
        esc_byte(s[0]) + esc(s.drop_first())
    }
}

/// A quoted string: the escaped bytes between double quotes.
pub open spec fn qstr(s: Seq<u8>) -> Seq<u8> {
    seq!['"' as u8] + esc(s) + seq!['"' as u8]
}

/// One `keyword = "value"` line, newline included; `kw` is the literal
/// up to and including the equals sign and space.
pub open spec fn line_bytes(kw: Seq<u8>, v: Seq<u8>) -> Seq<u8> {
    kw + qstr(v) + seq!['\n' as u8]
}

/// One section: its header line, the label and command lines, and the
/// key line when the action has a trigger key.
#[verifier::opaque]
pub open spec fn section_bytes(header: Seq<u8>, a: SpecAction) -> Seq<u8> {
    header + line_bytes(lit("label = "), a.label) + line_bytes(lit("command = "), a.command)
        + match a.key {
        Some(k) => line_bytes(lit("key = "), seq![k]),
        None => Seq::<u8>::empty(),
    }
}

/// The tail of a serialized registry from the lock section on.
pub open spec fn suffix4_bytes(l: SpecAction, su: SpecAction) -> Seq<u8> {
    section_bytes(lit("[commands.lock]\n"), l) + seq!['\n' as u8] + section_bytes(
        lit("[commands.suspend]\n"),
        su,
    )
}

/// The tail of a serialized registry from the exit section on.
pub open spec fn suffix3_bytes(e: SpecAction, l: SpecAction, su: SpecAction) -> Seq<u8> {
    section_bytes(lit("[commands.exit]\n"), e) + seq!['\n' as u8] + suffix4_bytes(l, su)
}

/// The tail of a serialized registry from the reboot section on.
pub open spec fn suffix2_bytes(r: SpecAction, e: SpecAction, l: SpecAction, su: SpecAction) -> Seq<
    u8,
> {
    section_bytes(lit("[commands.reboot]\n"), r) + seq!['\n' as u8] + suffix3_bytes(e, l, su)
}

/// The serialized form of a whole registry: the five sections in
/// canonical order, separated by blank lines.
pub open spec fn toml_bytes(v: SpecRegistry) -> Seq<u8> {
    section_bytes(lit("[commands.shutdown]\n"), v.shutdown) + seq!['\n' as u8] + suffix2_bytes(
        v.reboot,
        v.exit,
        v.lock,
        v.suspend,
    )
}

// ---------------------------------------------------------------------
// Escaping lemmas.
// ---------------------------------------------------------------------

proof fn lemma_esc_single(b: u8)
    ensures
        esc(seq![b]) == esc_byte(b),
{
    assert(seq![b].drop_first() =~= Seq::<u8>::empty());
    assert(esc(Seq::<u8>::empty()) =~= Seq::<u8>::empty());
    assert(seq![b][0] == b);
    assert(esc(seq![b]) =~= esc_byte(b));
}

proof fn lemma_esc_snoc(s: Seq<u8>, b: u8)
    ensures
        esc(s.push(b)) == esc(s) + esc_byte(b),
    decreases s.len(),
{
    if s.len() == 0 {
        assert(s.push(b) =~= seq![b]);
        lemma_esc_single(b);
        assert(esc(s.push(b)) =~= esc(s) + esc_byte(b));
    } else {
        assert(s.push(b).drop_first() =~= s.drop_first().push(b));
        lemma_esc_snoc(s.drop_first(), b);
        assert(esc(s.push(b)) =~= esc(s) + esc_byte(b));
    }
}

/// A suffix that no escaped byte can continue into: the end of input, a
/// bare quote, or a backslash not followed by an escapable byte.
spec fn stops(z: Seq<u8>) -> bool {
    z.len() == 0 || z[0] == '"' as u8 || (z[0] == '\\' as u8 && (z.len() == 1 || !is_special(
        z[1],
    )))
}

/// Escaped text is uniquely decodable up to a stopping suffix.
proof fn lemma_esc_unique(t1: Seq<u8>, z1: Seq<u8>, t2: Seq<u8>, z2: Seq<u8>)
    requires
        esc(t1) + z1 == esc(t2) + z2,
        stops(z1),
        stops(z2),
    ensures
        t1 == t2,
        z1 == z2,
    decreases t1.len() + t2.len(),
{
    let w = esc(t1) + z1;
    if t1.len() == 0 && t2.len() == 0 {
        assert(z1 =~= w);
        assert(z2 =~= w);
        assert(t1 =~= t2);
    } else if t1.len() == 0 {
        assert(z1 =~= w);
        assert(w =~= esc_byte(t2[0]) + (esc(t2.drop_first()) + z2));
        if is_special(t2[0]) {
            assert(z1[0] == '\\' as u8);
            assert(z1[1] == t2[0]);
            assert(false);
        } else {
            assert(z1[0] == t2[0]);
            assert(false);
        }
    } else if t2.len() == 0 {
        assert(z2 =~= w);
        assert(w =~= esc_byte(t1[0]) + (esc(t1.drop_first()) + z1));
        if is_special(t1[0]) {
            assert(z2[0] == '\\' as u8);
            assert(z2[1] == t1[0]);
            assert(false);
        } else {
            assert(z2[0] == t1[0]);
            assert(false);
        }
    } else {
        assert(w =~= esc_byte(t1[0]) + (esc(t1.drop_first()) + z1));
        assert(w =~= esc_byte(t2[0]) + (esc(t2.drop_first()) + z2));
        if is_special(t1[0]) && is_special(t2[0]) {
            assert(w[1] == t1[0] && w[1] == t2[0]);
            assert((esc(t1.drop_first()) + z1) =~= w.skip(2));
            assert((esc(t2.drop_first()) + z2) =~= w.skip(2));
            lemma_esc_unique(t1.drop_first(), z1, t2.drop_first(), z2);
            assert forall|i: int| 0 <= i < t1.len() implies t1[i] == t2[i] by {
                if i > 0 {
                    assert(t1[i] == t1.drop_first()[i - 1]);
                    assert(t2[i] == t2.drop_first()[i - 1]);
                }
            }
            assert(t1 =~= t2);
        } else if is_special(t1[0]) && !is_special(t2[0]) {
            assert(w[0] == '\\' as u8 && w[0] == t2[0]);
            assert(false);
        } else if !is_special(t1[0]) && is_special(t2[0]) {
            assert(w[0] == t1[0] && w[0] == '\\' as u8);
            assert(false);
        } else {
            assert(w[0] == t1[0] && w[0] == t2[0]);
            assert((esc(t1.drop_first()) + z1) =~= w.skip(1));
            assert((esc(t2.drop_first()) + z2) =~= w.skip(1));
            lemma_esc_unique(t1.drop_first(), z1, t2.drop_first(), z2);
            assert forall|i: int| 0 <= i < t1.len() implies t1[i] == t2[i] by {
                if i > 0 {
                    assert(t1[i] == t1.drop_first()[i - 1]);
                    assert(t2[i] == t2.drop_first()[i - 1]);
                }
            }
            assert(t1 =~= t2);
        }
    }
}

/// Restates a quoted string found at `start`..`end` as an escaped body
/// followed by a stopping suffix of the whole tail of `s`, the shape
/// that `lemma_esc_unique` speaks of.
proof fn lemma_qstr_tail(s: Seq<u8>, start: int, end: int, t: Seq<u8>)
    requires
        0 <= start,
        start <= end <= s.len(),
        s.subrange(start, end) == qstr(t),
    ensures
        s.subrange(start + 1, s.len() as int) == esc(t) + (seq!['"' as u8] + s.subrange(
            end,
            s.len() as int,
        )),
        s[start] == '"' as u8,
        stops(seq!['"' as u8] + s.subrange(end, s.len() as int)),
{
    let n = s.len() as int;
    let q = qstr(t);
    let e = esc(t).len() as int;
    assert(q.len() == end - start);
    assert forall|j: int| 0 <= j < q.len() implies s[start + j] == q[j] by {
        assert(s.subrange(start, end)[j] == s[start + j]);
    }
    assert(q[0] == '"' as u8);
    let z = seq!['"' as u8] + s.subrange(end, n);
    assert forall|j: int| 0 <= j < n - (start + 1) implies s.subrange(start + 1, n)[j] == (esc(t)
        + z)[j] by {
        assert(s.subrange(start + 1, n)[j] == s[start + 1 + j]);
        if j < e {
            assert((seq!['"' as u8] + esc(t))[j + 1] == esc(t)[j]);
            assert(q[j + 1] == (seq!['"' as u8] + esc(t))[j + 1]);
            assert(s[start + 1 + j] == q[j + 1]);
        } else if j == e {
            assert((esc(t) + z)[j] == z[0]);
            assert(q[q.len() - 1] == '"' as u8);
            assert(s[start + 1 + j] == q[q.len() - 1]);
        } else {
            assert((esc(t) + z)[j] == z[j - e]);
            assert(z[j - e] == s.subrange(end, n)[j - e - 1]);
            assert(s.subrange(end, n)[j - e - 1] == s[end + j - e - 1]);
        }
    }
    assert(s.subrange(start + 1, n) =~= esc(t) + z);
}

/// A quoted string occupies a unique extent at a given position: two
/// readings that both start at `start` carry the same value and end at
/// the same place.
proof fn lemma_qstr_at(s: Seq<u8>, start: int, end1: int, t1: Seq<u8>, end2: int, t2: Seq<u8>)
    requires
        0 <= start,
        start <= end1 <= s.len(),
        start <= end2 <= s.len(),
        s.subrange(start, end1) == qstr(t1),
        s.subrange(start, end2) == qstr(t2),
    ensures
        t1 == t2,
        end1 == end2,
{
    let n = s.len() as int;
    assert(end1 - start == qstr(t1).len());
    assert(end2 - start == qstr(t2).len());
    let z1 = seq!['"' as u8] + s.subrange(end1, n);
    let z2 = seq!['"' as u8] + s.subrange(end2, n);
    lemma_qstr_tail(s, start, end1, t1);
    assert(s.subrange(start + 1, n) == esc(t1) + z1);
    lemma_qstr_tail(s, start, end2, t2);
    assert(s.subrange(start + 1, n) == esc(t2) + z2);
    lemma_esc_unique(t1, z1, t2, z2);
    assert(z1.len() == z2.len());
}

// ---------------------------------------------------------------------
// Serialization.
// ---------------------------------------------------------------------

/// Appends an ASCII literal.
fn push_lit(out: &mut Vec<u8>, s: &str)
    requires
        s.is_ascii(),
    ensures
        final(out)@ == old(out)@ + lit(s),
{
    let mut b = lit_bytes(s);
    out.append(&mut b);
}

/// Appends a quoted string, escaping `"` and `\`.
fn push_qstr(out: &mut Vec<u8>, s: &Vec<u8>)
    ensures
        final(out)@ == old(out)@ + qstr(s@),
{
    out.push('"' as u8);
    let mut i: usize = 0;
    while i < s.len()
        invariant
            i <= s@.len(),
            out@ == old(out)@ + seq!['"' as u8] + esc(s@.subrange(0, i as int)),
        decreases s@.len() - i,
    {
        let b = s[i];
        if b == '"' as u8 || b == '\\' as u8 {
            out.push('\\' as u8);
        }
        out.push(b);
        proof {
            assert(s@.subrange(0, i + 1 as int) =~= s@.subrange(0, i as int).push(b));
            lemma_esc_snoc(s@.subrange(0, i as int), b);
            assert(out@ =~= old(out)@ + seq!['"' as u8] + esc(s@.subrange(0, i + 1 as int)));
        }
        i = i + 1;
    }
    out.push('"' as u8);
    proof {
        assert(s@.subrange(0, s@.len() as int) =~= s@);
        assert(out@ =~= old(out)@ + qstr(s@));
    }
}

/// Appends one `keyword = "value"` line.
fn push_line(out: &mut Vec<u8>, kw: &str, v: &Vec<u8>)
    requires
        kw.is_ascii(),
    ensures
        final(out)@ == old(out)@ + line_bytes(lit(kw), v@),
{
    push_lit(out, kw);
    push_qstr(out, v);
    out.push('\n' as u8);
    proof {
        assert(out@ =~= old(out)@ + line_bytes(lit(kw), v@));
    }
}

/// Appends one section.
fn push_section(out: &mut Vec<u8>, header: &str, a: &ActionSpec)
    requires
        header.is_ascii(),
    ensures
        final(out)@ == old(out)@ + section_bytes(lit(header), a@),
{
    proof {
        reveal(section_bytes);
        reveal_strlit("label = ");
        reveal_strlit("command = ");
        reveal_strlit("key = ");
    }
    push_lit(out, header);
    push_line(out, "label = ", &a.label);
    push_line(out, "command = ", &a.command);
    match a.key {
        Some(k) => {
            push_lit(out, "key = ");
            out.push('"' as u8);
            if k == '"' as u8 || k == '\\' as u8 {
                out.push('\\' as u8);
            }
            out.push(k);
            out.push('"' as u8);
            out.push('\n' as u8);
            proof {
                lemma_esc_single(k);
                assert(out@ =~= old(out)@ + section_bytes(lit(header), a@));
            }
        },
        None => {
            proof {
                assert(out@ =~= old(out)@ + section_bytes(lit(header), a@));
            }
        },
    }
}

/// Serializes a registry into its canonical text form.
pub fn to_toml(r: &ActionRegistry) -> (out: Vec<u8>)
    ensures
        out@ == toml_bytes(r@),
{
    proof {
        reveal_strlit("[commands.shutdown]\n");
        reveal_strlit("[commands.reboot]\n");
        reveal_strlit("[commands.exit]\n");
        reveal_strlit("[commands.lock]\n");
        reveal_strlit("[commands.suspend]\n");
    }
    let mut out: Vec<u8> = Vec::new();
    push_section(&mut out, "[commands.shutdown]\n", &r.shutdown);
    out.push('\n' as u8);
    push_section(&mut out, "[commands.reboot]\n", &r.reboot);
    out.push('\n' as u8);
    push_section(&mut out, "[commands.exit]\n", &r.exit);
    out.push('\n' as u8);
    push_section(&mut out, "[commands.lock]\n", &r.lock);
    out.push('\n' as u8);
    push_section(&mut out, "[commands.suspend]\n", &r.suspend);
    proof {
        assert(out@ =~= toml_bytes(r@));
    }
    out
}

// ---------------------------------------------------------------------
// Splitting and joining occurrences of concatenated spec sequences.
// ---------------------------------------------------------------------

/// If `x + y` stands at `at`..`end` in `s`, each half stands at its own
/// range.
proof fn lemma_split_at(s: Seq<u8>, at: int, end: int, x: Seq<u8>, y: Seq<u8>)
    requires
        0 <= at,
        at <= end <= s.len(),
        s.subrange(at, end) == x + y,
    ensures
        at + x.len() + y.len() == end,
        s.subrange(at, at + x.len() as int) == x,
        s.subrange(at + x.len() as int, end) == y,
{
    assert(s.subrange(at, end).len() == end - at);
    assert((x + y).len() == x.len() + y.len());
    assert(end - at == x.len() + y.len());
    assert forall|j: int| 0 <= j < end - at implies s[at + j] == (x + y)[j] by {
        assert(s.subrange(at, end)[j] == s[at + j]);
    }
    assert forall|j: int| 0 <= j < x.len() implies s.subrange(at, at + x.len() as int)[j]
        == x[j] by {
        assert((x + y)[j] == x[j]);
    }
    assert forall|j: int| 0 <= j < y.len() implies s.subrange(at + x.len() as int, end)[j]
        == y[j] by {
        assert((x + y)[x.len() + j] == y[j]);
        assert(s.subrange(at + x.len() as int, end)[j] == s[at + x.len() + j]);
    }
    assert(s.subrange(at, at + x.len() as int) =~= x);
    assert(s.subrange(at + x.len() as int, end) =~= y);
}

/// Two adjacent occurrences join into an occurrence of the
/// concatenation.
proof fn lemma_join_at(s: Seq<u8>, at: int, mid: int, end: int, x: Seq<u8>, y: Seq<u8>)
    requires
        0 <= at <= mid <= end <= s.len(),
        s.subrange(at, mid) == x,
        s.subrange(mid, end) == y,
    ensures
        s.subrange(at, end) == x + y,
{
    assert forall|j: int| 0 <= j < end - at implies s.subrange(at, end)[j] == (x + y)[j] by {
        if j < mid - at {
            assert(s.subrange(at, mid)[j] == s[at + j]);
        } else {
            assert(s.subrange(mid, end)[j - (mid - at)] == s[at + j]);
        }
    }
    assert(s.subrange(at, end) =~= x + y);
}

// ---------------------------------------------------------------------
// Parsing.
// ---------------------------------------------------------------------

/// Matches an ASCII literal at `at`; on success returns the position
/// just past it.
fn match_lit(s: &Vec<u8>, at: usize, pat: &str) -> (r: Option<usize>)
    requires
        pat.is_ascii(),
        at <= s@.len(),
    ensures
        match r {
            Some(end) => at <= end <= s@.len() && end - at == lit(pat).len() && s@.subrange(
                at as int,
                end as int,
            ) == lit(pat),
            None => !(at + lit(pat).len() <= s@.len() && s@.subrange(
                at as int,
                at + lit(pat).len(),
            ) == lit(pat)),
        },
{
    let p = lit_bytes(pat);
    let n = s.len();
    if p.len() > n - at {
        return None;
    }
    let mut j: usize = 0;
    while j < p.len()
        invariant
            n == s@.len(),
            at + p@.len() <= s@.len(),
            j <= p@.len(),
            p@ == lit(pat),
            at <= s@.len(),
            forall|i: int| 0 <= i < j ==> s@[at + i] == p@[i],
        decreases p@.len() - j,
    {
        if s[at + j] != p[j] {
            proof {
                assert(s@.subrange(at as int, at + lit(pat).len())[j as int] != lit(pat)[j as int]);
            }
            return None;
        }
        j = j + 1;
    }
    proof {
        assert(s@.subrange(at as int, at + lit(pat).len()) =~= lit(pat));
    }
    Some(at + p.len())
}

/// When scanning a quoted string stalls — the input ends, or a
/// backslash is not followed by an escapable byte — no quoted string
/// stands at `at` at all.
proof fn lemma_qstr_none(s: Seq<u8>, at: int, i: int, t: Seq<u8>)
    requires
        0 <= at < i <= s.len(),
        s[at] == '"' as u8,
        s.subrange(at + 1, i) == esc(t),
        stops(s.subrange(i, s.len() as int)),
        i == s.len() || s[i] == '\\' as u8,
    ensures
        forall|t2: Seq<u8>, end2: int|
            at <= end2 <= s.len() ==> s.subrange(at, end2) != qstr(t2),
{
    let n = s.len() as int;
    let z1 = s.subrange(i, n);
    assert forall|t2: Seq<u8>, end2: int|
        at <= end2 <= s.len() implies s.subrange(at, end2) != qstr(t2) by {
        if s.subrange(at, end2) == qstr(t2) {
            lemma_qstr_tail(s, at, end2, t2);
            let z2 = seq!['"' as u8] + s.subrange(end2, n);
            assert(s.subrange(at + 1, n) =~= esc(t) + z1) by {
                assert forall|j: int| 0 <= j < n - (at + 1) implies s.subrange(at + 1, n)[j] == (
                esc(t) + z1)[j] by {
                    assert(s.subrange(at + 1, n)[j] == s[at + 1 + j]);
                    if j < i - at - 1 {
                        assert(s.subrange(at + 1, i)[j] == s[at + 1 + j]);
                    } else {
                        assert(z1[j - (i - at - 1)] == s[at + 1 + j]);
                    }
                }
            }
            lemma_esc_unique(t, z1, t2, z2);
            assert(z1[0] == '"' as u8);
            if i == s.len() {
                assert(false);
            } else {
                assert(z1[0] == s[i]);
                assert(false);
            }
        }
    }
}

/// Reads a quoted string at `at`. Accepts exactly the forms that
/// `qstr` produces: when it fails, no quoted string stands at `at`.
fn parse_qstr(s: &Vec<u8>, at: usize) -> (r: Option<(Vec<u8>, usize)>)
    requires
        at <= s@.len(),
    ensures
        match r {
            Some(p) => at < p.1 <= s@.len() && s@.subrange(at as int, p.1 as int) == qstr(p.0@),
            None => forall|t2: Seq<u8>, end2: int|
                at <= end2 <= s@.len() ==> s@.subrange(at as int, end2) != qstr(t2),
        },
{
    if at >= s.len() || s[at] != '"' as u8 {
        proof {
            assert forall|t2: Seq<u8>, end2: int|
                at <= end2 <= s@.len() implies s@.subrange(at as int, end2) != qstr(t2) by {
                if s@.subrange(at as int, end2) == qstr(t2) {
                    assert(end2 - at == qstr(t2).len());
                    assert(qstr(t2).len() >= 2);
                    assert(qstr(t2)[0] == (seq!['"' as u8] + esc(t2))[0]);
                    assert(s@.subrange(at as int, end2)[0] == s@[at as int]);
                    assert(s@[at as int] == '"' as u8);
                }
            }
        }
        return None;
    }
    let mut t: Vec<u8> = Vec::new();
    let mut i: usize = at + 1;
    proof {
        assert(s@.subrange(at + 1 as int, i as int) =~= esc(t@));
    }
    while i < s.len()
        invariant
            at + 1 <= i <= s@.len(),
            s@[at as int] == '"' as u8,
            s@.subrange(at + 1 as int, i as int) == esc(t@),
        decreases s@.len() - i,
    {
        let b = s[i];
        if b == '"' as u8 {
            proof {
                assert(s@.subrange(i as int, i + 1 as int) =~= seq![s@[i as int]]);
                assert(s@.subrange(at as int, at + 1 as int) =~= seq![s@[at as int]]);
                lemma_join_at(s@, at + 1, i as int, i + 1 as int, esc(t@), seq![s@[i as int]]);
                lemma_join_at(
                    s@,
                    at as int,
                    at + 1,
                    i + 1 as int,
                    seq![s@[at as int]],
                    esc(t@) + seq![s@[i as int]],
                );
                assert(s@.subrange(at as int, i + 1) =~= qstr(t@));
            }
            return Some((t, i + 1));
        } else if b == '\\' as u8 {
            if i + 1 < s.len() {
                let nb = s[i + 1];
                if nb == '"' as u8 || nb == '\\' as u8 {
                    let ghost t0 = t@;
                    t.push(nb);
                    proof {
                        lemma_esc_snoc(t0, nb);
                        assert(s@.subrange(at + 1 as int, i + 2 as int) =~= esc(t0) + seq![
                            s@[i as int],
                            s@[i + 1 as int],
                        ]);
                        assert(esc_byte(nb) =~= seq![s@[i as int], s@[i + 1 as int]]);
                        assert(s@.subrange(at + 1 as int, i + 2 as int) == esc(t@));
                    }
                    i = i + 2;
                } else {
                    proof {
                        assert(s@.subrange(i as int, s@.len() as int)[0] == '\\' as u8);
                        assert(s@.subrange(i as int, s@.len() as int)[1] == nb);
                        lemma_qstr_none(s@, at as int, i as int, t@);
                    }
                    return None;
                }
            } else {
                proof {
                    assert(s@.subrange(i as int, s@.len() as int)[0] == '\\' as u8);
                    assert(s@.subrange(i as int, s@.len() as int).len() == 1);
                    lemma_qstr_none(s@, at as int, i as int, t@);
                }
                return None;
            }
        } else {
            let ghost t0 = t@;
            t.push(b);
            proof {
                lemma_esc_snoc(t0, b);
                assert(s@.subrange(at + 1 as int, i + 1 as int) =~= esc(t0) + seq![s@[i as int]]);
                assert(esc_byte(b) =~= seq![s@[i as int]]);
                assert(s@.subrange(at + 1 as int, i + 1 as int) == esc(t@));
            }
            i = i + 1;
        }
    }
    proof {
        assert(s@.subrange(i as int, s@.len() as int).len() == 0);
        lemma_qstr_none(s@, at as int, i as int, t@);
    }
    None
}

/// Reads one `keyword = "value"` line at `at`. Accepts exactly the
/// forms `line_bytes` produces, and a line's extent and value at a
/// given position are unique.
fn parse_value_line(s: &Vec<u8>, at: usize, kw: &str) -> (r: Option<(Vec<u8>, usize)>)
    requires
        kw.is_ascii(),
        at <= s@.len(),
    ensures
        match r {
            Some(p) => at < p.1 <= s@.len() && s@.subrange(at as int, p.1 as int) == line_bytes(
                lit(kw),
                p.0@,
            ) && forall|v2: Seq<u8>, end2: int|
                at <= end2 <= s@.len() && s@.subrange(at as int, end2) == line_bytes(lit(kw), v2)
                    ==> v2 == p.0@ && end2 == p.1,
            None => forall|v2: Seq<u8>, end2: int|
                at <= end2 <= s@.len() ==> s@.subrange(at as int, end2) != line_bytes(lit(kw), v2),
        },
{
    let m = match match_lit(s, at, kw) {
        Some(m) => m,
        None => {
            proof {
                assert forall|v2: Seq<u8>, end2: int|
                    at <= end2 <= s@.len() implies s@.subrange(at as int, end2) != line_bytes(
                    lit(kw),
                    v2,
                ) by {
                    if s@.subrange(at as int, end2) == line_bytes(lit(kw), v2) {
                        assert(line_bytes(lit(kw), v2) =~= lit(kw) + (qstr(v2) + seq!['\n' as u8]));
                        lemma_split_at(
                            s@,
                            at as int,
                            end2,
                            lit(kw),
                            qstr(v2) + seq!['\n' as u8],
                        );
                    }
                }
            }
            return None;
        },
    };
    let qr = match parse_qstr(s, m) {
        Some(qr) => qr,
        None => {
            proof {
                assert forall|v2: Seq<u8>, end2: int|
                    at <= end2 <= s@.len() implies s@.subrange(at as int, end2) != line_bytes(
                    lit(kw),
                    v2,
                ) by {
                    if s@.subrange(at as int, end2) == line_bytes(lit(kw), v2) {
                        assert(line_bytes(lit(kw), v2) =~= lit(kw) + (qstr(v2) + seq!['\n' as u8]));
                        lemma_split_at(s@, at as int, end2, lit(kw), qstr(v2) + seq!['\n' as u8]);
                        lemma_split_at(s@, m as int, end2, qstr(v2), seq!['\n' as u8]);
                    }
                }
            }
            return None;
        },
    };
    let (v, qe) = qr;
    if qe < s.len() && s[qe] == '\n' as u8 {
        proof {
            assert(s@.subrange(qe as int, qe + 1 as int) =~= seq![s@[qe as int]]);
            lemma_join_at(s@, m as int, qe as int, qe + 1 as int, qstr(v@), seq![s@[qe as int]]);
            lemma_join_at(
                s@,
                at as int,
                m as int,
                qe + 1 as int,
                lit(kw),
                qstr(v@) + seq!['\n' as u8],
            );
            assert(s@.subrange(at as int, qe + 1 as int) =~= line_bytes(lit(kw), v@));
            assert forall|v2: Seq<u8>, end2: int|
                at <= end2 <= s@.len() && s@.subrange(at as int, end2) == line_bytes(lit(kw), v2)
                    implies v2 == v@ && end2 == qe + 1 by {
                assert(line_bytes(lit(kw), v2) =~= lit(kw) + (qstr(v2) + seq!['\n' as u8]));
                lemma_split_at(s@, at as int, end2, lit(kw), qstr(v2) + seq!['\n' as u8]);
                lemma_split_at(s@, m as int, end2, qstr(v2), seq!['\n' as u8]);
                lemma_qstr_at(s@, m as int, end2 - 1, v2, qe as int, v@);
            }
        }
        Some((v, qe + 1))
    } else {
        proof {
            assert forall|v2: Seq<u8>, end2: int|
                at <= end2 <= s@.len() implies s@.subrange(at as int, end2) != line_bytes(
                lit(kw),
                v2,
            ) by {
                if s@.subrange(at as int, end2) == line_bytes(lit(kw), v2) {
                    assert(line_bytes(lit(kw), v2) =~= lit(kw) + (qstr(v2) + seq!['\n' as u8]));
                    lemma_split_at(s@, at as int, end2, lit(kw), qstr(v2) + seq!['\n' as u8]);
                    lemma_split_at(s@, m as int, end2, qstr(v2), seq!['\n' as u8]);
                    lemma_qstr_at(s@, m as int, end2 - 1, v2, qe as int, v@);
                    assert(s@.subrange(end2 - 1, end2)[0] == '\n' as u8);
                }
            }
        }
        None
    }
}

/// A position where a section may end inside a well-formed file: the
/// end of the input or a following blank separator line.
pub open spec fn boundary(s: Seq<u8>, end: int) -> bool {
    end == s.len() || s[end] == '\n' as u8
}

/// What a section occurrence needs of the byte after it: nothing when
/// the section carries a key line, and "no key line could follow" when
/// it does not — otherwise a shorter, keyless reading would be
/// ambiguous.
spec fn closes(s: Seq<u8>, a: SpecAction, end: int) -> bool {
    match a.key {
        Some(_) => true,
        None => end == s.len() || s[end] != 'k' as u8,
    }
}

/// Two line occurrences at one position carry the same value and end
/// at the same place.
proof fn lemma_line_unique(
    s: Seq<u8>,
    at: int,
    kw: Seq<u8>,
    v1: Seq<u8>,
    end1: int,
    v2: Seq<u8>,
    end2: int,
)
    requires
        0 <= at,
        at <= end1 <= s.len(),
        at <= end2 <= s.len(),
        s.subrange(at, end1) == line_bytes(kw, v1),
        s.subrange(at, end2) == line_bytes(kw, v2),
    ensures
        v1 == v2,
        end1 == end2,
{
    assert(line_bytes(kw, v1) =~= kw + (qstr(v1) + seq!['\n' as u8]));
    assert(line_bytes(kw, v2) =~= kw + (qstr(v2) + seq!['\n' as u8]));
    lemma_split_at(s, at, end1, kw, qstr(v1) + seq!['\n' as u8]);
    lemma_split_at(s, at + kw.len() as int, end1, qstr(v1), seq!['\n' as u8]);
    lemma_split_at(s, at, end2, kw, qstr(v2) + seq!['\n' as u8]);
    lemma_split_at(s, at + kw.len() as int, end2, qstr(v2), seq!['\n' as u8]);
    lemma_qstr_at(s, at + kw.len() as int, end1 - 1, v1, end2 - 1, v2);
}

/// Splits a section occurrence into its parts; the returned positions
/// are the starts of the label line, the command line, and whatever
/// follows the command line.
proof fn lemma_section_parts(s: Seq<u8>, at: int, end: int, header: Seq<u8>, a: SpecAction) -> (m: (
    int,
    int,
    int,
))
    requires
        0 <= at,
        at <= end <= s.len(),
        s.subrange(at, end) == section_bytes(header, a),
    ensures
        at <= m.0 <= m.1 <= m.2 <= end,
        m.0 == at + header.len(),
        s.subrange(at, m.0) == header,
        s.subrange(m.0, m.1) == line_bytes(lit("label = "), a.label),
        s.subrange(m.1, m.2) == line_bytes(lit("command = "), a.command),
        match a.key {
            Some(k) => s.subrange(m.2, end) == line_bytes(lit("key = "), seq![k]),
            None => m.2 == end,
        },
{
    reveal(section_bytes);
    let lab = line_bytes(lit("label = "), a.label);
    let cmd = line_bytes(lit("command = "), a.command);
    let keypart = match a.key {
        Some(k) => line_bytes(lit("key = "), seq![k]),
        None => Seq::<u8>::empty(),
    };
    assert(section_bytes(header, a) =~= header + (lab + (cmd + keypart)));
    lemma_split_at(s, at, end, header, lab + (cmd + keypart));
    let m0 = at + header.len() as int;
    lemma_split_at(s, m0, end, lab, cmd + keypart);
    let m1 = m0 + lab.len() as int;
    lemma_split_at(s, m1, end, cmd, keypart);
    let m2 = m1 + cmd.len() as int;
    if a.key is None {
        assert(keypart.len() == 0);
    }
    (m0, m1, m2)
}

/// Joins the parts of a section back into one occurrence.
proof fn lemma_section_join(
    s: Seq<u8>,
    at: int,
    m0: int,
    m1: int,
    m2: int,
    end: int,
    header: Seq<u8>,
    a: SpecAction,
)
    requires
        0 <= at <= m0 <= m1 <= m2 <= end <= s.len(),
        s.subrange(at, m0) == header,
        s.subrange(m0, m1) == line_bytes(lit("label = "), a.label),
        s.subrange(m1, m2) == line_bytes(lit("command = "), a.command),
        match a.key {
            Some(k) => s.subrange(m2, end) == line_bytes(lit("key = "), seq![k]),
            None => m2 == end,
        },
    ensures
        s.subrange(at, end) == section_bytes(header, a),
{
    reveal(section_bytes);
    let lab = line_bytes(lit("label = "), a.label);
    let cmd = line_bytes(lit("command = "), a.command);
    let keypart = match a.key {
        Some(k) => line_bytes(lit("key = "), seq![k]),
        None => Seq::<u8>::empty(),
    };
    if a.key is None {
        assert(s.subrange(m2, end) =~= keypart);
    }
    lemma_join_at(s, m1, m2, end, cmd, keypart);
    lemma_join_at(s, m0, m1, end, lab, cmd + keypart);
    lemma_join_at(s, at, m0, end, header, lab + (cmd + keypart));
    assert(section_bytes(header, a) =~= header + (lab + (cmd + keypart)));
}

/// The first byte of a key line is 'k'.
proof fn lemma_key_line_head(s: Seq<u8>, at: int, end: int, k: u8)
    requires
        0 <= at,
        at <= end <= s.len(),
        s.subrange(at, end) == line_bytes(lit("key = "), seq![k]),
    ensures
        at < end,
        s[at] == 'k' as u8,
{
    reveal_strlit("key = ");
    assert(s.subrange(at, end).len() == end - at);
    assert(line_bytes(lit("key = "), seq![k]).len() == lit("key = ").len() + qstr(seq![k]).len() + 1);
    assert(qstr(seq![k]).len() == esc(seq![k]).len() + 2);
    assert(line_bytes(lit("key = "), seq![k])[0] == (lit("key = ") + qstr(seq![k]))[0]);
    assert(lit("key = ")[0] == 'k' as u8);
    assert(s.subrange(at, end)[0] == s[at]);
}

/// Two section occurrences at one position describe the same action and
/// end at the same place.
proof fn lemma_section_unique(
    s: Seq<u8>,
    at: int,
    header: Seq<u8>,
    a1: SpecAction,
    end1: int,
    a2: SpecAction,
    end2: int,
)
    requires
        0 <= at,
        at <= end1 <= s.len(),
        at <= end2 <= s.len(),
        s.subrange(at, end1) == section_bytes(header, a1),
        s.subrange(at, end2) == section_bytes(header, a2),
        closes(s, a1, end1),
        closes(s, a2, end2),
    ensures
        a1 == a2,
        end1 == end2,
{
    let m = lemma_section_parts(s, at, end1, header, a1);
    let n = lemma_section_parts(s, at, end2, header, a2);
    lemma_line_unique(s, m.0, lit("label = "), a1.label, m.1, a2.label, n.1);
    lemma_line_unique(s, m.1, lit("command = "), a1.command, m.2, a2.command, n.2);
    match a1.key {
        Some(k1) => {
            match a2.key {
                Some(k2) => {
                    lemma_line_unique(s, m.2, lit("key = "), seq![k1], end1, seq![k2], end2);
                    assert(k1 == seq![k1][0] && k2 == seq![k2][0]);
                },
                None => {
                    lemma_key_line_head(s, m.2, end1, k1);
                    assert(false);
                },
            }
        },
        None => {
            match a2.key {
                Some(k2) => {
                    lemma_key_line_head(s, n.2, end2, k2);
                    assert(false);
                },
                None => {},
            }
        },
    }
}

/// Reads one section at `at`. Accepts exactly the forms
/// `section_bytes` produces; among readings whose end lies on a
/// section boundary, the action and its extent are unique.
#[verifier::rlimit(30)]
fn parse_section(s: &Vec<u8>, at: usize, header: &str) -> (r: Option<(ActionSpec, usize)>)
    requires
        header.is_ascii(),
        at <= s@.len(),
    ensures
        match r {
            Some(p) => at < p.1 <= s@.len() && s@.subrange(at as int, p.1 as int)
                == section_bytes(lit(header), p.0@) && (forall|a2: SpecAction, end2: int|
                at <= end2 <= s@.len() && boundary(s@, end2) && s@.subrange(at as int, end2)
                    == section_bytes(lit(header), a2) ==> a2 == p.0@ && end2 == p.1),
            None => forall|a2: SpecAction, end2: int|
                at <= end2 <= s@.len() && boundary(s@, end2) ==> s@.subrange(at as int, end2)
                    != section_bytes(lit(header), a2),
        },
{
    proof {
        reveal_strlit("label = ");
        reveal_strlit("command = ");
        reveal_strlit("key = ");
    }
    let m0 = match match_lit(s, at, header) {
        Some(m0) => m0,
        None => {
            proof {
                assert forall|a2: SpecAction, end2: int|
                    at <= end2 <= s@.len() && boundary(s@, end2) implies s@.subrange(
                    at as int,
                    end2,
                ) != section_bytes(lit(header), a2) by {
                    if s@.subrange(at as int, end2) == section_bytes(lit(header), a2) {
                        let m = lemma_section_parts(s@, at as int, end2, lit(header), a2);
                    }
                }
            }
            return None;
        },
    };
    let (lab, m1) = match parse_value_line(s, m0, "label = ") {
        Some(p) => p,
        None => {
            proof {
                assert forall|a2: SpecAction, end2: int|
                    at <= end2 <= s@.len() && boundary(s@, end2) implies s@.subrange(
                    at as int,
                    end2,
                ) != section_bytes(lit(header), a2) by {
                    if s@.subrange(at as int, end2) == section_bytes(lit(header), a2) {
                        let m = lemma_section_parts(s@, at as int, end2, lit(header), a2);
                    }
                }
            }
            return None;
        },
    };
    let (cmd, m2) = match parse_value_line(s, m1, "command = ") {
        Some(p) => p,
        None => {
            proof {
                assert forall|a2: SpecAction, end2: int|
                    at <= end2 <= s@.len() && boundary(s@, end2) implies s@.subrange(
                    at as int,
                    end2,
                ) != section_bytes(lit(header), a2) by {
                    if s@.subrange(at as int, end2) == section_bytes(lit(header), a2) {
                        let m = lemma_section_parts(s@, at as int, end2, lit(header), a2);
                    }
                }
            }
            return None;
        },
    };
    if m2 < s.len() && s[m2] == 'k' as u8 {
        let (kv, m3) = match parse_value_line(s, m2, "key = ") {
            Some(p) => p,
            None => {
                proof {
                    assert forall|a2: SpecAction, end2: int|
                        at <= end2 <= s@.len() && boundary(s@, end2) implies s@.subrange(
                        at as int,
                        end2,
                    ) != section_bytes(lit(header), a2) by {
                        if s@.subrange(at as int, end2) == section_bytes(lit(header), a2) {
                            let m = lemma_section_parts(s@, at as int, end2, lit(header), a2);
                        }
                    }
                }
                return None;
            },
        };
        if kv.len() == 1 {
            let k = kv[0];
            let a = ActionSpec { label: lab, command: cmd, key: Some(k) };
            proof {
                assert(kv@ =~= seq![k]);
                lemma_section_join(
                    s@,
                    at as int,
                    m0 as int,
                    m1 as int,
                    m2 as int,
                    m3 as int,
                    lit(header),
                    a@,
                );
                assert forall|a2: SpecAction, end2: int|
                    at <= end2 <= s@.len() && boundary(s@, end2) && s@.subrange(at as int, end2)
                        == section_bytes(lit(header), a2) implies a2 == a@ && end2 == m3 by {
                    lemma_section_unique(s@, at as int, lit(header), a@, m3 as int, a2, end2);
                }
            }
            Some((a, m3))
        } else {
            proof {
                assert forall|a2: SpecAction, end2: int|
                    at <= end2 <= s@.len() && boundary(s@, end2) implies s@.subrange(
                    at as int,
                    end2,
                ) != section_bytes(lit(header), a2) by {
                    if s@.subrange(at as int, end2) == section_bytes(lit(header), a2) {
                        let m = lemma_section_parts(s@, at as int, end2, lit(header), a2);
                        match a2.key {
                            Some(k2) => {
                                assert(seq![k2].len() == 1);
                            },
                            None => {},
                        }
                    }
                }
            }
            None
        }
    } else {
        let a = ActionSpec { label: lab, command: cmd, key: None };
        proof {
            lemma_section_join(s@, at as int, m0 as int, m1 as int, m2 as int, m2 as int, lit(header), a@);
            assert forall|a2: SpecAction, end2: int|
                at <= end2 <= s@.len() && boundary(s@, end2) && s@.subrange(at as int, end2)
                    == section_bytes(lit(header), a2) implies a2 == a@ && end2 == m2 by {
                lemma_section_unique(s@, at as int, lit(header), a@, m2 as int, a2, end2);
            }
        }
        Some((a, m2))
    }
}

/// Splits a serialized registry into its five sections; the returned
/// positions are where the four blank separator lines stand.
#[verifier::rlimit(100)]
proof fn lemma_toml_parts(s: Seq<u8>, v: SpecRegistry) -> (e: (int, int, int, int))
    requires
        s == toml_bytes(v),
    ensures
        0 <= e.0 < e.1 < e.2 < e.3 < s.len(),
        s.subrange(0, e.0) == section_bytes(lit("[commands.shutdown]\n"), v.shutdown),
        s[e.0] == '\n' as u8,
        s.subrange(e.0 + 1, e.1) == section_bytes(lit("[commands.reboot]\n"), v.reboot),
        s[e.1] == '\n' as u8,
        s.subrange(e.1 + 1, e.2) == section_bytes(lit("[commands.exit]\n"), v.exit),
        s[e.2] == '\n' as u8,
        s.subrange(e.2 + 1, e.3) == section_bytes(lit("[commands.lock]\n"), v.lock),
        s[e.3] == '\n' as u8,
        s.subrange(e.3 + 1, s.len() as int) == section_bytes(lit("[commands.suspend]\n"), v.suspend),
{
    let nl = seq!['\n' as u8];
    let sec1 = section_bytes(lit("[commands.shutdown]\n"), v.shutdown);
    let sec2 = section_bytes(lit("[commands.reboot]\n"), v.reboot);
    let sec3 = section_bytes(lit("[commands.exit]\n"), v.exit);
    let sec4 = section_bytes(lit("[commands.lock]\n"), v.lock);
    let sec5 = section_bytes(lit("[commands.suspend]\n"), v.suspend);
    let n = s.len() as int;
    assert(s.subrange(0, n) =~= s);
    assert(s.subrange(0, n) =~= sec1 + (nl + (sec2 + (nl + (sec3 + (nl + (sec4 + (nl
        + sec5))))))));
    lemma_split_at(s, 0, n, sec1, nl + (sec2 + (nl + (sec3 + (nl + (sec4 + (nl + sec5)))))));
    let e0 = sec1.len() as int;
    lemma_split_at(s, e0, n, nl, sec2 + (nl + (sec3 + (nl + (sec4 + (nl + sec5))))));
    assert(s[e0] == s.subrange(e0, e0 + 1)[0]);
    lemma_split_at(s, e0 + 1, n, sec2, nl + (sec3 + (nl + (sec4 + (nl + sec5)))));
    let e1 = e0 + 1 + sec2.len() as int;
    lemma_split_at(s, e1, n, nl, sec3 + (nl + (sec4 + (nl + sec5))));
    assert(s[e1] == s.subrange(e1, e1 + 1)[0]);
    lemma_split_at(s, e1 + 1, n, sec3, nl + (sec4 + (nl + sec5)));
    let e2 = e1 + 1 + sec3.len() as int;
    lemma_split_at(s, e2, n, nl, sec4 + (nl + sec5));
    assert(s[e2] == s.subrange(e2, e2 + 1)[0]);
    lemma_split_at(s, e2 + 1, n, sec4, nl + sec5);
    let e3 = e2 + 1 + sec4.len() as int;
    lemma_split_at(s, e3, n, nl, sec5);
    assert(s[e3] == s.subrange(e3, e3 + 1)[0]);
    (e0, e1, e2, e3)
}

/// Law (round trip): serialization is injective, so a registry is
/// recovered exactly from its serialized text — two registries with the
/// same serialization are the same registry, and parsing the
/// serialization of a registry can only return that registry.
#[verifier::rlimit(100)]
pub proof fn lemma_toml_round_trip(v1: SpecRegistry, v2: SpecRegistry)
    requires
        toml_bytes(v1) == toml_bytes(v2),
    ensures
        v1 == v2,
{
    let s = toml_bytes(v1);
    let e = lemma_toml_parts(s, v1);
    let f = lemma_toml_parts(s, v2);
    lemma_section_unique(s, 0, lit("[commands.shutdown]\n"), v1.shutdown, e.0, v2.shutdown, f.0);
    lemma_section_unique(s, e.0 + 1, lit("[commands.reboot]\n"), v1.reboot, e.1, v2.reboot, f.1);
    lemma_section_unique(s, e.1 + 1, lit("[commands.exit]\n"), v1.exit, e.2, v2.exit, f.2);
    lemma_section_unique(s, e.2 + 1, lit("[commands.lock]\n"), v1.lock, e.3, v2.lock, f.3);
    lemma_section_unique(
        s,
        e.3 + 1,
        lit("[commands.suspend]\n"),
        v1.suspend,
        s.len() as int,
        v2.suspend,
        s.len() as int,
    );
}

/// Reads the last section, which must reach the end of the input.
fn parse_suffix5(s: &Vec<u8>, at: usize) -> (r: Option<ActionSpec>)
    requires
        at <= s@.len(),
    ensures
        match r {
            Some(a) => s@.subrange(at as int, s@.len() as int) == section_bytes(
                lit("[commands.suspend]\n"),
                a@,
            ),
            None => forall|a2: SpecAction|
                s@.subrange(at as int, s@.len() as int) != section_bytes(
                    lit("[commands.suspend]\n"),
                    a2,
                ),
        },
{
    proof {
        reveal_strlit("[commands.suspend]\n");
    }
    let ghost n = s@.len() as int;
    match parse_section(s, at, "[commands.suspend]\n") {
        Some((a, p)) => {
            if p == s.len() {
                Some(a)
            } else {
                proof {
                    assert forall|a2: SpecAction|
                        s@.subrange(at as int, n) != section_bytes(
                            lit("[commands.suspend]\n"),
                            a2,
                        ) by {
                        if s@.subrange(at as int, n) == section_bytes(
                            lit("[commands.suspend]\n"),
                            a2,
                        ) {
                            assert(boundary(s@, n));
                        }
                    }
                }
                None
            }
        },
        None => {
            proof {
                assert forall|a2: SpecAction|
                    s@.subrange(at as int, n) != section_bytes(
                        lit("[commands.suspend]\n"),
                        a2,
                    ) by {
                    if s@.subrange(at as int, n) == section_bytes(
                        lit("[commands.suspend]\n"),
                        a2,
                    ) {
                        assert(boundary(s@, n));
                    }
                }
            }
            None
        },
    }
}

/// Reads the lock section, a blank separator and the suspend section,
/// reaching the end of the input.
fn parse_suffix4(s: &Vec<u8>, at: usize) -> (r: Option<(ActionSpec, ActionSpec)>)
    requires
        at <= s@.len(),
    ensures
        match r {
            Some(p) => s@.subrange(at as int, s@.len() as int) == suffix4_bytes(p.0@, p.1@),
            None => forall|l: SpecAction, su: SpecAction|
                s@.subrange(at as int, s@.len() as int) != suffix4_bytes(l, su),
        },
{
    proof {
        reveal_strlit("[commands.lock]\n");
    }
    let ghost n = s@.len() as int;
    let ghost nl = seq!['\n' as u8];
    let (a4, p) = match parse_section(s, at, "[commands.lock]\n") {
        Some(q) => q,
        None => {
            proof {
                assert forall|l: SpecAction, su: SpecAction|
                    s@.subrange(at as int, n) != suffix4_bytes(l, su) by {
                    if s@.subrange(at as int, n) == suffix4_bytes(l, su) {
                        let sec = section_bytes(lit("[commands.lock]\n"), l);
                        let rest = nl + section_bytes(lit("[commands.suspend]\n"), su);
                        assert(suffix4_bytes(l, su) =~= sec + rest);
                        lemma_split_at(s@, at as int, n, sec, rest);
                        let e = at + sec.len() as int;
                        assert(s@.subrange(e, n)[0] == '\n' as u8);
                        assert(boundary(s@, e));
                    }
                }
            }
            return None;
        },
    };
    if p < s.len() && s[p] == '\n' as u8 {
        match parse_suffix5(s, p + 1) {
            Some(a5) => {
                proof {
                    let sec4 = section_bytes(lit("[commands.lock]\n"), a4@);
                    let sec5 = section_bytes(lit("[commands.suspend]\n"), a5@);
                    assert(s@.subrange(p as int, p + 1) =~= nl);
                    lemma_join_at(s@, p as int, p + 1, n, nl, sec5);
                    lemma_join_at(s@, at as int, p as int, n, sec4, nl + sec5);
                    assert(suffix4_bytes(a4@, a5@) =~= sec4 + (nl + sec5));
                }
                Some((a4, a5))
            },
            None => {
                proof {
                    assert forall|l: SpecAction, su: SpecAction|
                        s@.subrange(at as int, n) != suffix4_bytes(l, su) by {
                        if s@.subrange(at as int, n) == suffix4_bytes(l, su) {
                            let sec = section_bytes(lit("[commands.lock]\n"), l);
                            let sec5 = section_bytes(lit("[commands.suspend]\n"), su);
                            assert(suffix4_bytes(l, su) =~= sec + (nl + sec5));
                            lemma_split_at(s@, at as int, n, sec, nl + sec5);
                            let e = at + sec.len() as int;
                            assert(s@.subrange(e, n)[0] == '\n' as u8);
                            assert(boundary(s@, e));
                            assert(l == a4@ && e == p);
                            lemma_split_at(s@, e, n, nl, sec5);
                        }
                    }
                }
                None
            },
        }
    } else {
        proof {
            assert forall|l: SpecAction, su: SpecAction|
                s@.subrange(at as int, n) != suffix4_bytes(l, su) by {
                if s@.subrange(at as int, n) == suffix4_bytes(l, su) {
                    let sec = section_bytes(lit("[commands.lock]\n"), l);
                    let sec5 = section_bytes(lit("[commands.suspend]\n"), su);
                    assert(suffix4_bytes(l, su) =~= sec + (nl + sec5));
                    lemma_split_at(s@, at as int, n, sec, nl + sec5);
                    let e = at + sec.len() as int;
                    assert(s@.subrange(e, n)[0] == '\n' as u8);
                    assert(boundary(s@, e));
                    assert(l == a4@ && e == p);
                }
            }
        }
        None
    }
}

/// Reads the exit section, a blank separator and the rest of the
/// configuration, reaching the end of the input.
fn parse_suffix3(s: &Vec<u8>, at: usize) -> (r: Option<(ActionSpec, ActionSpec, ActionSpec)>)
    requires
        at <= s@.len(),
    ensures
        match r {
            Some(p) => s@.subrange(at as int, s@.len() as int) == suffix3_bytes(p.0@, p.1@, p.2@),
            None => forall|e: SpecAction, l: SpecAction, su: SpecAction|
                s@.subrange(at as int, s@.len() as int) != suffix3_bytes(e, l, su),
        },
{
    proof {
        reveal_strlit("[commands.exit]\n");
    }
    let ghost n = s@.len() as int;
    let ghost nl = seq!['\n' as u8];
    let (a3, p) = match parse_section(s, at, "[commands.exit]\n") {
        Some(q) => q,
        None => {
            proof {
                assert forall|e: SpecAction, l: SpecAction, su: SpecAction|
                    s@.subrange(at as int, n) != suffix3_bytes(e, l, su) by {
                    if s@.subrange(at as int, n) == suffix3_bytes(e, l, su) {
                        let sec = section_bytes(lit("[commands.exit]\n"), e);
                        let rest = nl + suffix4_bytes(l, su);
                        assert(suffix3_bytes(e, l, su) =~= sec + rest);
                        lemma_split_at(s@, at as int, n, sec, rest);
                        let q = at + sec.len() as int;
                        assert(s@.subrange(q, n)[0] == '\n' as u8);
                        assert(boundary(s@, q));
                    }
                }
            }
            return None;
        },
    };
    if p < s.len() && s[p] == '\n' as u8 {
        match parse_suffix4(s, p + 1) {
            Some((a4, a5)) => {
                proof {
                    let sec3 = section_bytes(lit("[commands.exit]\n"), a3@);
                    let tail = suffix4_bytes(a4@, a5@);
                    assert(s@.subrange(p as int, p + 1) =~= nl);
                    lemma_join_at(s@, p as int, p + 1, n, nl, tail);
                    lemma_join_at(s@, at as int, p as int, n, sec3, nl + tail);
                    assert(suffix3_bytes(a3@, a4@, a5@) =~= sec3 + (nl + tail));
                }
                Some((a3, a4, a5))
            },
            None => {
                proof {
                    assert forall|e: SpecAction, l: SpecAction, su: SpecAction|
                        s@.subrange(at as int, n) != suffix3_bytes(e, l, su) by {
                        if s@.subrange(at as int, n) == suffix3_bytes(e, l, su) {
                            let sec = section_bytes(lit("[commands.exit]\n"), e);
                            let tail = suffix4_bytes(l, su);
                            assert(suffix3_bytes(e, l, su) =~= sec + (nl + tail));
                            lemma_split_at(s@, at as int, n, sec, nl + tail);
                            let q = at + sec.len() as int;
                            assert(s@.subrange(q, n)[0] == '\n' as u8);
                            assert(boundary(s@, q));
                            assert(e == a3@ && q == p);
                            lemma_split_at(s@, q, n, nl, tail);
                        }
                    }
                }
                None
            },
        }
    } else {
        proof {
            assert forall|e: SpecAction, l: SpecAction, su: SpecAction|
                s@.subrange(at as int, n) != suffix3_bytes(e, l, su) by {
                if s@.subrange(at as int, n) == suffix3_bytes(e, l, su) {
                    let sec = section_bytes(lit("[commands.exit]\n"), e);
                    let tail = suffix4_bytes(l, su);
                    assert(suffix3_bytes(e, l, su) =~= sec + (nl + tail));
                    lemma_split_at(s@, at as int, n, sec, nl + tail);
                    let q = at + sec.len() as int;
                    assert(s@.subrange(q, n)[0] == '\n' as u8);
                    assert(boundary(s@, q));
                    assert(e == a3@ && q == p);
                }
            }
        }
        None
    }
}

/// Reads the reboot section, a blank separator and the rest of the
/// configuration, reaching the end of the input.
fn parse_suffix2(s: &Vec<u8>, at: usize) -> (r: Option<
    (ActionSpec, ActionSpec, ActionSpec, ActionSpec),
>)
    requires
        at <= s@.len(),
    ensures
        match r {
            Some(p) => s@.subrange(at as int, s@.len() as int) == suffix2_bytes(
                p.0@,
                p.1@,
                p.2@,
                p.3@,
            ),
            None => forall|rb: SpecAction, e: SpecAction, l: SpecAction, su: SpecAction|
                s@.subrange(at as int, s@.len() as int) != suffix2_bytes(rb, e, l, su),
        },
{
    proof {
        reveal_strlit("[commands.reboot]\n");
    }
    let ghost n = s@.len() as int;
    let ghost nl = seq!['\n' as u8];
    let (a2, p) = match parse_section(s, at, "[commands.reboot]\n") {
        Some(q) => q,
        None => {
            proof {
                assert forall|rb: SpecAction, e: SpecAction, l: SpecAction, su: SpecAction|
                    s@.subrange(at as int, n) != suffix2_bytes(rb, e, l, su) by {
                    if s@.subrange(at as int, n) == suffix2_bytes(rb, e, l, su) {
                        let sec = section_bytes(lit("[commands.reboot]\n"), rb);
                        let rest = nl + suffix3_bytes(e, l, su);
                        assert(suffix2_bytes(rb, e, l, su) =~= sec + rest);
                        lemma_split_at(s@, at as int, n, sec, rest);
                        let q = at + sec.len() as int;
                        assert(s@.subrange(q, n)[0] == '\n' as u8);
                        assert(boundary(s@, q));
                    }
                }
            }
            return None;
        },
    };
    if p < s.len() && s[p] == '\n' as u8 {
        match parse_suffix3(s, p + 1) {
            Some((a3, a4, a5)) => {
                proof {
                    let sec2 = section_bytes(lit("[commands.reboot]\n"), a2@);
                    let tail = suffix3_bytes(a3@, a4@, a5@);
                    assert(s@.subrange(p as int, p + 1) =~= nl);
                    lemma_join_at(s@, p as int, p + 1, n, nl, tail);
                    lemma_join_at(s@, at as int, p as int, n, sec2, nl + tail);
                    assert(suffix2_bytes(a2@, a3@, a4@, a5@) =~= sec2 + (nl + tail));
                }
                Some((a2, a3, a4, a5))
            },
            None => {
                proof {
                    assert forall|rb: SpecAction, e: SpecAction, l: SpecAction, su: SpecAction|
                        s@.subrange(at as int, n) != suffix2_bytes(rb, e, l, su) by {
                        if s@.subrange(at as int, n) == suffix2_bytes(rb, e, l, su) {
                            let sec = section_bytes(lit("[commands.reboot]\n"), rb);
                            let tail = suffix3_bytes(e, l, su);
                            assert(suffix2_bytes(rb, e, l, su) =~= sec + (nl + tail));
                            lemma_split_at(s@, at as int, n, sec, nl + tail);
                            let q = at + sec.len() as int;
                            assert(s@.subrange(q, n)[0] == '\n' as u8);
                            assert(boundary(s@, q));
                            assert(rb == a2@ && q == p);
                            lemma_split_at(s@, q, n, nl, tail);
                        }
                    }
                }
                None
            },
        }
    } else {
        proof {
            assert forall|rb: SpecAction, e: SpecAction, l: SpecAction, su: SpecAction|
                s@.subrange(at as int, n) != suffix2_bytes(rb, e, l, su) by {
                if s@.subrange(at as int, n) == suffix2_bytes(rb, e, l, su) {
                    let sec = section_bytes(lit("[commands.reboot]\n"), rb);
                    let tail = suffix3_bytes(e, l, su);
                    assert(suffix2_bytes(rb, e, l, su) =~= sec + (nl + tail));
                    lemma_split_at(s@, at as int, n, sec, nl + tail);
                    let q = at + sec.len() as int;
                    assert(s@.subrange(q, n)[0] == '\n' as u8);
                    assert(boundary(s@, q));
                    assert(rb == a2@ && q == p);
                }
            }
        }
        None
    }
}

/// Parses configuration text. Returns the registry whose serialized
/// form the input is; `None` exactly when the input is not the
/// serialized form of any registry.
pub fn parse_toml(s: &Vec<u8>) -> (r: Option<ActionRegistry>)
    ensures
        match r {
            Some(reg) => s@ == toml_bytes(reg@),
            None => forall|v: SpecRegistry| s@ != toml_bytes(v),
        },
{
    proof {
        reveal_strlit("[commands.shutdown]\n");
    }
    let ghost n = s@.len() as int;
    let ghost nl = seq!['\n' as u8];
    let (a1, p) = match parse_section(s, 0, "[commands.shutdown]\n") {
        Some(q) => q,
        None => {
            proof {
                assert forall|v: SpecRegistry| s@ != toml_bytes(v) by {
                    if s@ == toml_bytes(v) {
                        let sec = section_bytes(lit("[commands.shutdown]\n"), v.shutdown);
                        let rest = nl + suffix2_bytes(v.reboot, v.exit, v.lock, v.suspend);
                        assert(s@.subrange(0, n) =~= s@);
                        assert(s@.subrange(0, n) =~= sec + rest);
                        lemma_split_at(s@, 0, n, sec, rest);
                        let q = sec.len() as int;
                        assert(s@.subrange(q, n)[0] == '\n' as u8);
                        assert(boundary(s@, q));
                    }
                }
            }
            return None;
        },
    };
    if p < s.len() && s[p] == '\n' as u8 {
        match parse_suffix2(s, p + 1) {
            Some((a2, a3, a4, a5)) => {
                let reg = ActionRegistry {
                    shutdown: a1,
                    reboot: a2,
                    exit: a3,
                    lock: a4,
                    suspend: a5,
                };
                proof {
                    let sec1 = section_bytes(lit("[commands.shutdown]\n"), a1@);
                    let tail = suffix2_bytes(a2@, a3@, a4@, a5@);
                    assert(s@.subrange(p as int, p + 1) =~= nl);
                    lemma_join_at(s@, p as int, p + 1, n, nl, tail);
                    lemma_join_at(s@, 0, p as int, n, sec1, nl + tail);
                    assert(s@.subrange(0, n) =~= s@);
                    assert(toml_bytes(reg@) =~= sec1 + (nl + tail));
                }
                Some(reg)
            },
            None => {
                proof {
                    assert forall|v: SpecRegistry| s@ != toml_bytes(v) by {
                        if s@ == toml_bytes(v) {
                            let sec = section_bytes(lit("[commands.shutdown]\n"), v.shutdown);
                            let tail = suffix2_bytes(v.reboot, v.exit, v.lock, v.suspend);
                            assert(s@.subrange(0, n) =~= s@);
                            assert(s@.subrange(0, n) =~= sec + (nl + tail));
                            lemma_split_at(s@, 0, n, sec, nl + tail);
                            let q = sec.len() as int;
                            assert(s@.subrange(q, n)[0] == '\n' as u8);
                            assert(boundary(s@, q));
                            assert(v.shutdown == a1@ && q == p);
                            lemma_split_at(s@, q, n, nl, tail);
                        }
                    }
                }
                None
            },
        }
    } else {
        proof {
            assert forall|v: SpecRegistry| s@ != toml_bytes(v) by {
                if s@ == toml_bytes(v) {
                    let sec = section_bytes(lit("[commands.shutdown]\n"), v.shutdown);
                    let tail = suffix2_bytes(v.reboot, v.exit, v.lock, v.suspend);
                    assert(s@.subrange(0, n) =~= s@);
                    assert(s@.subrange(0, n) =~= sec + (nl + tail));
                    lemma_split_at(s@, 0, n, sec, nl + tail);
                    let q = sec.len() as int;
                    assert(s@.subrange(q, n)[0] == '\n' as u8);
                    assert(boundary(s@, q));
                    assert(v.shutdown == a1@ && q == p);
                }
            }
        }
        None
    }
}

} // verus!
