use vstd::prelude::*;
use vstd::string::StrSliceExecFns;
use vstd::string::StringExecFns;

use crate::collection::{Collection, Snippet, SnippetV, lemma_map_of_domain, pairs_of, wf_pairs};
use crate::error::StorageError;
use crate::strutil::push_char;
use crate::timestamp::{Timestamp, lemma_rfc3339_injective, lemma_rfc3339_no_specials, rfc3339};
use crate::timestamp::parse_rfc3339;

verus! {

// ---------------------------------------------------------------------------
// The document format of the file backend: one pretty-printed text object,
//
//     {
//       "NAME": { "content": "TEXT", "created_at": "STAMP" },
//       ...
//     }
//
// with quotes, backslashes and newlines escaped inside NAME and TEXT, and
// the empty collection rendered as `{}`. The renderer produces exactly this
// canonical form, and the parser accepts exactly what the renderer produces,
// so a document determines its collection.
// ---------------------------------------------------------------------------
/// How one character is written inside a quoted string.
pub open spec fn esc_char(c: char) -> Seq<char> {
    if c == '"' {
        seq!['\\', 'u', '0', '0', '2', '2']
    } else if c == '\\' {
        seq!['\\', '\\']
    } else if c == '\n' {
        seq!['\\', 'n']
    } else {
        seq![c]
    }
}

/// A whole string, escaped.
pub open spec fn esc(s: Seq<char>) -> Seq<char>
    decreases s.len(),
{
    if s.len() == 0 {
        Seq::empty()
    } else {
        esc_char(s[0]) + esc(s.subrange(1, s.len() as int))
    }
}

/// The text between a name's closing quote and its content's opening quote.
pub open spec fn sep_content() -> Seq<char> {
    seq![':', ' ', '{', ' ', '"', 'c', 'o', 'n', 't', 'e', 'n', 't', '"', ':', ' ', '"']
}

/// The text between the content's closing quote and the stamp's opening one.
pub open spec fn sep_created() -> Seq<char> {
    seq![',', ' ', '"', 'c', 'r', 'e', 'a', 't', 'e', 'd', '_', 'a', 't', '"', ':', ' ', '"']
}

/// One entry's line.
pub open spec fn line_of(name: Seq<char>, sv: SnippetV) -> Seq<char> {
    seq![' ', ' ', '"'] + esc(name) + seq!['"'] + sep_content() + esc(sv.content) + seq!['"']
        + sep_created() + rfc3339(sv.created_at) + seq!['"'] + seq![' ', '}']
}

/// The entry lines, joined by `,` and a line break.
pub open spec fn body_of(s: Seq<(Seq<char>, SnippetV)>) -> Seq<char>
    decreases s.len(),
{
    if s.len() == 0 {
        Seq::empty()
    } else if s.len() == 1 {
        line_of(s[0].0, s[0].1)
    } else {
        line_of(s[0].0, s[0].1) + seq![',', '\n'] + body_of(s.subrange(1, s.len() as int))
    }
}

/// The whole document for a sequence of entries.
pub open spec fn render(s: Seq<(Seq<char>, SnippetV)>) -> Seq<char> {
    if s.len() == 0 {
        seq!['{', '}']
    } else {
        seq!['{', '\n'] + body_of(s) + seq!['\n', '}']
    }
}

/// Escaping distributes over concatenation.
proof fn lemma_esc_concat(a: Seq<char>, b: Seq<char>)
    ensures
        esc(a + b) == esc(a) + esc(b),
    decreases a.len(),
{
    if a.len() == 0 {
        assert(a + b =~= b);
        assert(esc(a) + esc(b) =~= esc(b));
    } else {
        assert((a + b).subrange(1, (a + b).len() as int) =~= a.subrange(1, a.len() as int) + b);
        assert((a + b)[0] == a[0]);
        assert((a + b).len() > 0);
        lemma_esc_concat(a.subrange(1, a.len() as int), b);
        assert(esc(a + b) =~= esc(a) + esc(b));
    }
}

/// Escaped text never contains a raw quote or newline.
proof fn lemma_esc_no_specials(w: Seq<char>)
    ensures
        forall|k: int| 0 <= k < esc(w).len() ==> #[trigger] esc(w)[k] != '"' && esc(w)[k] != '\n',
    decreases w.len(),
{
    if w.len() > 0 {
        lemma_esc_no_specials(w.subrange(1, w.len() as int));
        let ec = esc_char(w[0]);
        let tail = esc(w.subrange(1, w.len() as int));
        assert(esc(w) == ec + tail);
        assert forall|k: int| 0 <= k < esc(w).len() implies #[trigger] esc(w)[k] != '"' && esc(
            w,
        )[k] != '\n' by {
            if k < ec.len() {
                assert(esc(w)[k] == ec[k]);
            } else {
                assert(esc(w)[k] == tail[k - ec.len()]);
            }
        }
    }
}

/// Escaping is injective: the escaped text determines the original.
proof fn lemma_esc_injective(w1: Seq<char>, w2: Seq<char>)
    requires
        esc(w1) == esc(w2),
    ensures
        w1 == w2,
    decreases w1.len(),
{
    if w1.len() == 0 {
        if w2.len() > 0 {
            assert(esc(w2).len() >= esc_char(w2[0]).len());
        }
        assert(w1 =~= w2);
    } else if w2.len() == 0 {
        assert(esc(w1).len() >= esc_char(w1[0]).len());
    } else {
        let c1 = w1[0];
        let c2 = w2[0];
        assert(esc(w1)[0] == esc_char(c1)[0]);
        assert(esc(w2)[0] == esc_char(c2)[0]);
        if c1 == '"' || c1 == '\\' || c1 == '\n' {
            assert(esc(w1)[0] == '\\');
            if !(c2 == '"' || c2 == '\\' || c2 == '\n') {
                assert(esc(w2)[0] == c2);
                assert(false);
            }
            assert(esc(w1)[1] == esc_char(c1)[1]);
            assert(esc(w2)[1] == esc_char(c2)[1]);
            assert(c1 == c2);
        } else {
            assert(esc(w1)[0] == c1);
            if c2 == '"' || c2 == '\\' || c2 == '\n' {
                assert(esc(w2)[0] == '\\');
                assert(false);
            }
            assert(esc(w2)[0] == c2);
            assert(c1 == c2);
        }
        let l = esc_char(c1).len() as int;
        assert(esc(w1).subrange(l, esc(w1).len() as int) =~= esc(
            w1.subrange(1, w1.len() as int),
        ));
        assert(esc(w2).subrange(l, esc(w2).len() as int) =~= esc(
            w2.subrange(1, w2.len() as int),
        ));
        lemma_esc_injective(w1.subrange(1, w1.len() as int), w2.subrange(1, w2.len() as int));
        assert(w1.subrange(1, w1.len() as int).len() == w2.subrange(1, w2.len() as int).len());
        assert forall|k: int| 0 <= k < w1.len() implies w1[k] == w2[k] by {
            if k >= 1 {
                assert(w1[k] == w1.subrange(1, w1.len() as int)[k - 1]);
                assert(w2[k] == w2.subrange(1, w2.len() as int)[k - 1]);
            }
        }
        assert(w1 =~= w2);
    }
}

/// A quote-free token followed by a quote splits a text in exactly one way.
proof fn lemma_quote_split(x1: Seq<char>, y1: Seq<char>, x2: Seq<char>, y2: Seq<char>)
    requires
        x1 + seq!['"'] + y1 == x2 + seq!['"'] + y2,
        forall|k: int| 0 <= k < x1.len() ==> #[trigger] x1[k] != '"',
        forall|k: int| 0 <= k < x2.len() ==> #[trigger] x2[k] != '"',
    ensures
        x1 == x2,
        y1 == y2,
{
    let u = x1 + seq!['"'] + y1;
    if x1.len() < x2.len() {
        assert(u[x1.len() as int] == '"');
        assert(u[x1.len() as int] == x2[x1.len() as int]);
        assert(false);
    }
    if x2.len() < x1.len() {
        assert(u[x2.len() as int] == '"');
        assert(u[x2.len() as int] == x1[x2.len() as int]);
        assert(false);
    }
    assert forall|k: int| 0 <= k < x1.len() implies x1[k] == x2[k] by {
        assert(u[k] == x1[k]);
        assert((x2 + seq!['"'] + y2)[k] == x2[k]);
    }
    assert(x1 =~= x2);
    assert((x1 + seq!['"'] + y1).len() == x1.len() + 1 + y1.len());
    assert((x2 + seq!['"'] + y2).len() == x2.len() + 1 + y2.len());
    assert forall|k: int| 0 <= k < y1.len() implies y1[k] == y2[k] by {
        assert(u[x1.len() + 1 + k] == y1[k]);
        assert((x2 + seq!['"'] + y2)[x2.len() + 1 + k] == y2[k]);
    }
    assert(y1 =~= y2);
}

/// Equal texts with a common prefix agree after it.
proof fn lemma_cancel_prefix(a: Seq<char>, b1: Seq<char>, b2: Seq<char>)
    requires
        a + b1 == a + b2,
    ensures
        b1 == b2,
{
    assert((a + b1).len() == a.len() + b1.len());
    assert((a + b2).len() == a.len() + b2.len());
    assert(b1.len() == b2.len());
    assert forall|k: int| 0 <= k < b1.len() implies b1[k] == b2[k] by {
        assert((a + b1)[a.len() + k] == b1[k]);
        assert((a + b2)[a.len() + k] == b2[k]);
    }
    assert(b1 =~= b2);
}

/// One line followed by anything determines the entry and the remainder.
#[verifier::rlimit(100)]
proof fn lemma_line_det(
    n1: Seq<char>,
    s1: SnippetV,
    r1: Seq<char>,
    n2: Seq<char>,
    s2: SnippetV,
    r2: Seq<char>,
)
    requires
        s1.created_at.wf(),
        s2.created_at.wf(),
        line_of(n1, s1) + r1 == line_of(n2, s2) + r2,
    ensures
        n1 == n2,
        s1 == s2,
        r1 == r2,
{
    let w1 = sep_content() + (esc(s1.content) + (seq!['"'] + (sep_created() + (rfc3339(
        s1.created_at,
    ) + (seq!['"'] + (seq![' ', '}'] + r1))))));
    let w2 = sep_content() + (esc(s2.content) + (seq!['"'] + (sep_created() + (rfc3339(
        s2.created_at,
    ) + (seq!['"'] + (seq![' ', '}'] + r2))))));
    assert(line_of(n1, s1) + r1 =~= seq![' ', ' ', '"'] + ((esc(n1) + seq!['"']) + w1));
    assert(line_of(n2, s2) + r2 =~= seq![' ', ' ', '"'] + ((esc(n2) + seq!['"']) + w2));
    lemma_cancel_prefix(seq![' ', ' ', '"'], (esc(n1) + seq!['"']) + w1, (esc(n2) + seq!['"']) + w2);
    lemma_esc_no_specials(n1);
    lemma_esc_no_specials(n2);
    lemma_quote_split(esc(n1), w1, esc(n2), w2);
    lemma_esc_injective(n1, n2);
    lemma_cancel_prefix(
        sep_content(),
        esc(s1.content) + (seq!['"'] + (sep_created() + (rfc3339(s1.created_at) + (seq!['"']
            + (seq![' ', '}'] + r1))))),
        esc(s2.content) + (seq!['"'] + (sep_created() + (rfc3339(s2.created_at) + (seq!['"']
            + (seq![' ', '}'] + r2))))),
    );
    let v1 = sep_created() + (rfc3339(s1.created_at) + (seq!['"'] + (seq![' ', '}'] + r1)));
    let v2 = sep_created() + (rfc3339(s2.created_at) + (seq!['"'] + (seq![' ', '}'] + r2)));
    assert(esc(s1.content) + (seq!['"'] + v1) =~= (esc(s1.content) + seq!['"']) + v1);
    assert(esc(s2.content) + (seq!['"'] + v2) =~= (esc(s2.content) + seq!['"']) + v2);
    lemma_esc_no_specials(s1.content);
    lemma_esc_no_specials(s2.content);
    lemma_quote_split(esc(s1.content), v1, esc(s2.content), v2);
    lemma_esc_injective(s1.content, s2.content);
    lemma_cancel_prefix(
        sep_created(),
        rfc3339(s1.created_at) + (seq!['"'] + (seq![' ', '}'] + r1)),
        rfc3339(s2.created_at) + (seq!['"'] + (seq![' ', '}'] + r2)),
    );
    assert(rfc3339(s1.created_at) + (seq!['"'] + (seq![' ', '}'] + r1)) =~= (rfc3339(
        s1.created_at,
    ) + seq!['"']) + (seq![' ', '}'] + r1));
    assert(rfc3339(s2.created_at) + (seq!['"'] + (seq![' ', '}'] + r2)) =~= (rfc3339(
        s2.created_at,
    ) + seq!['"']) + (seq![' ', '}'] + r2));
    lemma_rfc3339_no_specials(s1.created_at);
    lemma_rfc3339_no_specials(s2.created_at);
    lemma_quote_split(
        rfc3339(s1.created_at),
        seq![' ', '}'] + r1,
        rfc3339(s2.created_at),
        seq![' ', '}'] + r2,
    );
    lemma_rfc3339_injective(s1.created_at, s2.created_at);
    lemma_cancel_prefix(seq![' ', '}'], r1, r2);
}

/// A joined body followed by a line break determines its entries.
#[verifier::rlimit(100)]
proof fn lemma_body_det(
    m1: Seq<(Seq<char>, SnippetV)>,
    m2: Seq<(Seq<char>, SnippetV)>,
    r1: Seq<char>,
    r2: Seq<char>,
)
    requires
        m1.len() >= 1,
        m2.len() >= 1,
        wf_pairs(m1),
        wf_pairs(m2),
        body_of(m1) + r1 == body_of(m2) + r2,
        r1.len() >= 1 && r1[0] == '\n',
        r2.len() >= 1 && r2[0] == '\n',
    ensures
        m1 == m2,
        r1 == r2,
    decreases m1.len(),
{
    if m1.len() == 1 && m2.len() == 1 {
        lemma_line_det(m1[0].0, m1[0].1, r1, m2[0].0, m2[0].1, r2);
        assert(m1[0] == m2[0]);
        assert(m1 =~= m2);
    } else if m1.len() == 1 {
        let r2x = seq![',', '\n'] + (body_of(m2.subrange(1, m2.len() as int)) + r2);
        assert(body_of(m2) + r2 =~= line_of(m2[0].0, m2[0].1) + r2x);
        lemma_line_det(m1[0].0, m1[0].1, r1, m2[0].0, m2[0].1, r2x);
        assert(r1[0] == ',');
        assert(false);
    } else if m2.len() == 1 {
        let r1x = seq![',', '\n'] + (body_of(m1.subrange(1, m1.len() as int)) + r1);
        assert(body_of(m1) + r1 =~= line_of(m1[0].0, m1[0].1) + r1x);
        lemma_line_det(m1[0].0, m1[0].1, r1x, m2[0].0, m2[0].1, r2);
        assert(r2[0] == ',');
        assert(false);
    } else {
        let t1 = m1.subrange(1, m1.len() as int);
        let t2 = m2.subrange(1, m2.len() as int);
        let r1x = seq![',', '\n'] + (body_of(t1) + r1);
        let r2x = seq![',', '\n'] + (body_of(t2) + r2);
        assert(body_of(m1) + r1 =~= line_of(m1[0].0, m1[0].1) + r1x);
        assert(body_of(m2) + r2 =~= line_of(m2[0].0, m2[0].1) + r2x);
        lemma_line_det(m1[0].0, m1[0].1, r1x, m2[0].0, m2[0].1, r2x);
        lemma_cancel_prefix(seq![',', '\n'], body_of(t1) + r1, body_of(t2) + r2);
        assert(wf_pairs(t1)) by {
            assert(forall|i: int| 0 <= i < t1.len() ==> t1[i] == m1[i + 1]);
        }
        assert(wf_pairs(t2)) by {
            assert(forall|i: int| 0 <= i < t2.len() ==> t2[i] == m2[i + 1]);
        }
        lemma_body_det(t1, t2, r1, r2);
        assert(m1[0] == m2[0]);
        assert(m1.len() == t1.len() + 1 && m2.len() == t2.len() + 1);
        assert forall|k: int| 0 <= k < m1.len() implies m1[k] == m2[k] by {
            if k >= 1 {
                assert(m1[k] == t1[k - 1]);
                assert(m2[k] == t2[k - 1]);
            }
        }
        assert(m1 =~= m2);
    }
}

/// A document determines its collection: two entry sequences with the same
/// rendering are the same. Together with the contracts of the renderer and
/// the parser, this is the round-trip guarantee of the file backend: a
/// saved document loads back to exactly the collection that was saved.
pub proof fn lemma_render_injective(m1: Seq<(Seq<char>, SnippetV)>, m2: Seq<(Seq<char>, SnippetV)>)
    requires
        wf_pairs(m1),
        wf_pairs(m2),
        render(m1) == render(m2),
    ensures
        m1 == m2,
{
    if m1.len() == 0 && m2.len() == 0 {
        assert(m1 =~= m2);
    } else if m1.len() == 0 {
        assert(render(m1).len() == 2);
        assert(render(m2).len() == 4 + body_of(m2).len());
        assert(render(m2)[1] == '\n');
        assert(false);
    } else if m2.len() == 0 {
        assert(render(m2).len() == 2);
        assert(render(m1)[1] == '\n');
        assert(false);
    } else {
        assert(render(m1) =~= seq!['{', '\n'] + (body_of(m1) + seq!['\n', '}']));
        assert(render(m2) =~= seq!['{', '\n'] + (body_of(m2) + seq!['\n', '}']));
        lemma_cancel_prefix(
            seq!['{', '\n'],
            body_of(m1) + seq!['\n', '}'],
            body_of(m2) + seq!['\n', '}'],
        );
        lemma_body_det(m1, m2, seq!['\n', '}'], seq!['\n', '}']);
    }
}

/// Appending one entry extends the body by a separator and its line.
proof fn lemma_body_snoc(s: Seq<(Seq<char>, SnippetV)>, e: (Seq<char>, SnippetV))
    requires
        s.len() >= 1,
    ensures
        body_of(s.push(e)) == body_of(s) + seq![',', '\n'] + line_of(e.0, e.1),
    decreases s.len(),
{
    let p = s.push(e);
    assert(p.subrange(1, p.len() as int) =~= s.subrange(1, s.len() as int).push(e));
    if s.len() == 1 {
        assert(s.subrange(1, 1).push(e) =~= seq![e]);
        assert(body_of(seq![e]) == line_of(e.0, e.1));
        assert(body_of(p) =~= body_of(s) + seq![',', '\n'] + line_of(e.0, e.1));
    } else {
        lemma_body_snoc(s.subrange(1, s.len() as int), e);
        assert(p[0] == s[0]);
        assert(body_of(p) =~= body_of(s) + seq![',', '\n'] + line_of(e.0, e.1));
    }
}

/// Append one entry's line to the document under construction.
fn push_line(out: &mut String, name: &String, sn: &Snippet)
    requires
        sn.created_at.wf(),
    ensures
        final(out)@ == old(out)@ + line_of(name@, sn@),
{
    proof {
        reveal_strlit("  \"");
        reveal_strlit("\": { \"content\": \"");
        reveal_strlit("\", \"created_at\": \"");
        reveal_strlit("\" }");
        assert("  \""@ =~= seq![' ', ' ', '"']);
        assert("\": { \"content\": \""@ =~= seq!['"'] + sep_content());
        assert("\", \"created_at\": \""@ =~= seq!['"'] + sep_created());
        assert("\" }"@ =~= seq!['"'] + seq![' ', '}']);
    }
    out.append("  \"");
    push_escaped(out, name.as_str());
    out.append("\": { \"content\": \"");
    push_escaped(out, sn.content.as_str());
    out.append("\", \"created_at\": \"");
    let stamp = sn.created_at.format();
    out.append(stamp.as_str());
    out.append("\" }");
    assert(out@ =~= old(out)@ + line_of(name@, sn@));
}

/// Append `t` with quotes, backslashes and newlines escaped.
fn push_escaped(out: &mut String, t: &str)
    ensures
        final(out)@ == old(out)@ + esc(t@),
{
    let n = t.unicode_len();
    let mut i: usize = 0;
    proof {
        assert(t@.subrange(0, 0) =~= Seq::<char>::empty());
    }
    while i < n
        invariant
            n == t@.len(),
            i <= n,
            out@ == old(out)@ + esc(t@.subrange(0, i as int)),
        decreases n - i,
    {
        let c = t.get_char(i);
        if c == '"' {
            proof {
                reveal_strlit("\\u0022");
                assert("\\u0022"@ =~= seq!['\\', 'u', '0', '0', '2', '2']);
            }
            out.append("\\u0022");
        } else if c == '\\' {
            proof {
                reveal_strlit("\\\\");
                assert("\\\\"@ =~= seq!['\\', '\\']);
            }
            out.append("\\\\");
        } else if c == '\n' {
            proof {
                reveal_strlit("\\n");
                assert("\\n"@ =~= seq!['\\', 'n']);
            }
            out.append("\\n");
        } else {
            push_char(out, c);
        }
        proof {
            lemma_esc_concat(t@.subrange(0, i as int), seq![t@[i as int]]);
            assert(t@.subrange(0, i + 1) =~= t@.subrange(0, i as int) + seq![t@[i as int]]);
            assert(seq![t@[i as int]].subrange(1, 1) =~= Seq::<char>::empty());
            assert(esc(seq![t@[i as int]]) == esc_char(seq![t@[i as int]][0]) + esc(
                seq![t@[i as int]].subrange(1, 1),
            ));
            assert(esc(Seq::<char>::empty()) =~= Seq::<char>::empty());
            assert(esc(seq![t@[i as int]]) =~= esc_char(t@[i as int]));
            assert(out@ =~= old(out)@ + esc(t@.subrange(0, i + 1)));
        }
        i = i + 1;
    }
    proof {
        assert(t@.subrange(0, n as int) =~= t@);
    }
}

/// Render a collection as its canonical document.
pub fn render_document(col: &Collection) -> (r: String)
    requires
        col.wf(),
    ensures
        r@ == render(pairs_of(col.entries@)),
{
    let ghost pairs = pairs_of(col.entries@);
    let n = col.entries.len();
    if n == 0 {
        let r = "{}".to_owned();
        proof {
            reveal_strlit("{}");
            assert(r@ =~= render(pairs));
        }
        return r;
    }
    let mut out = String::new();
    proof {
        reveal_strlit("{\n");
        assert("{\n"@ =~= seq!['{', '\n']);
    }
    out.append("{\n");
    let mut i: usize = 0;
    while i < n
        invariant
            col.wf(),
            pairs == pairs_of(col.entries@),
            n == col.entries@.len(),
            0 <= i <= n,
            i > 0 ==> out@ == seq!['{', '\n'] + body_of(pairs.subrange(0, i as int)),
            i == 0 ==> out@ == seq!['{', '\n'],
        decreases n - i,
    {
        if i > 0 {
            proof {
                reveal_strlit(",\n");
                assert(",\n"@ =~= seq![',', '\n']);
            }
            out.append(",\n");
        }
        let entry = &col.entries[i];
        proof {
            assert(pairs[i as int] == (entry.0@, entry.1@));
            assert(pairs[i as int].1.created_at.wf());
        }
        push_line(&mut out, &entry.0, &entry.1);
        proof {
            let prev = pairs.subrange(0, i as int);
            let cur = pairs.subrange(0, i + 1);
            assert(cur =~= prev.push(pairs[i as int]));
            if i == 0 {
                assert(cur =~= seq![pairs[0]]);
                assert(body_of(cur) == line_of(pairs[0].0, pairs[0].1));
            } else {
                lemma_body_snoc(prev, pairs[i as int]);
            }
            assert(out@ =~= seq!['{', '\n'] + body_of(cur));
        }
        i = i + 1;
    }
    proof {
        reveal_strlit("\n}");
        assert("\n}"@ =~= seq!['\n', '}']);
        assert(pairs.subrange(0, n as int) =~= pairs);
    }
    out.append("\n}");
    assert(out@ =~= render(pairs));
    out
}

/// The literal `lit` stands at position `i` of `v`.
pub open spec fn lit_at(v: Seq<char>, i: int, lit: Seq<char>) -> bool {
    &&& 0 <= i
    &&& i + lit.len() <= v.len()
    &&& forall|k: int| 0 <= k < lit.len() ==> v[i + k] == #[trigger] lit[k]
}

/// Consuming a known prefix of the remaining text moves the anchor.
proof fn lemma_suffix_step(v: Seq<char>, pos: int, a: Seq<char>, rest: Seq<char>)
    requires
        0 <= pos <= v.len(),
        v.subrange(pos, v.len() as int) == a + rest,
    ensures
        pos + a.len() + rest.len() == v.len(),
        v.subrange(pos + a.len(), v.len() as int) == rest,
{
    let l = v.len() as int;
    assert(v.subrange(pos, l).len() == l - pos);
    assert((a + rest).len() == a.len() + rest.len());
    assert forall|k: int| 0 <= k < rest.len() implies v.subrange(pos + a.len(), l)[k]
        == rest[k] by {
        assert(v.subrange(pos + a.len(), l)[k] == v[pos + a.len() + k]);
        assert(v.subrange(pos, l)[a.len() + k] == v[pos + a.len() + k]);
        assert((a + rest)[a.len() + k] == rest[k]);
    }
    assert(v.subrange(pos + a.len(), l) =~= rest);
}

/// What follows entry `j - 1`'s line: the closing brace, or a separator and
/// the remaining lines.
pub open spec fn doc_suffix(m: Seq<(Seq<char>, SnippetV)>, j: int) -> Seq<char>
    decreases m.len() - j,
{
    if j < 0 || j >= m.len() {
        seq!['\n', '}']
    } else {
        seq![',', '\n'] + line_of(m[j].0, m[j].1) + doc_suffix(m, j + 1)
    }
}

proof fn lemma_suffix_len(m: Seq<(Seq<char>, SnippetV)>, j: int)
    ensures
        doc_suffix(m, j).len() >= 2,
        0 <= j < m.len() ==> doc_suffix(m, j).len() > 2,
    decreases m.len() - j,
{
    if 0 <= j && j < m.len() {
        lemma_suffix_len(m, j + 1);
    }
}

/// The rendered body from entry `j` on, with the closing brace, is entry
/// `j`'s line followed by its suffix.
#[verifier::rlimit(100)]
proof fn lemma_suffix_decomp(m: Seq<(Seq<char>, SnippetV)>, j: int)
    requires
        0 <= j < m.len(),
    ensures
        body_of(m.subrange(j, m.len() as int)) + seq!['\n', '}'] == line_of(m[j].0, m[j].1)
            + doc_suffix(m, j + 1),
    decreases m.len() - j,
{
    let tail = m.subrange(j, m.len() as int);
    if j == m.len() - 1 {
        assert(tail.len() == 1);
        assert(tail[0] == m[j]);
        assert(body_of(tail) + seq!['\n', '}'] =~= line_of(m[j].0, m[j].1) + doc_suffix(m, j + 1));
    } else {
        lemma_suffix_decomp(m, j + 1);
        assert(tail.subrange(1, tail.len() as int) =~= m.subrange(j + 1, m.len() as int));
        assert(tail[0] == m[j]);
        let rest2 = body_of(m.subrange(j + 1, m.len() as int)) + seq!['\n', '}'];
        assert(rest2 == line_of(m[j + 1].0, m[j + 1].1) + doc_suffix(m, j + 2));
        assert(doc_suffix(m, j + 1) =~= seq![',', '\n'] + rest2);
        assert(body_of(tail) + seq!['\n', '}'] =~= line_of(m[j].0, m[j].1) + (seq![',', '\n']
            + rest2));
        assert(body_of(tail) + seq!['\n', '}'] =~= line_of(m[j].0, m[j].1) + doc_suffix(m, j + 1));
    }
}

/// The shape of a rendered document around its braces.
proof fn lemma_render_shape(m: Seq<(Seq<char>, SnippetV)>)
    ensures
        render(m).len() >= 2,
        render(m)[0] == '{',
        m.len() == 0 ==> render(m).len() == 2 && render(m)[1] == '}',
        m.len() > 0 ==> render(m).len() > 2 && render(m)[1] == '\n',
{
    if m.len() > 0 {
        assert(render(m).len() == 2 + body_of(m).len() + 2);
    }
}

/// Unfolds one entry's line at an anchor: where each delimiter and each
/// quoted token of the line stands in the text, for the scanners to match.
#[verifier::rlimit(100)]
proof fn lemma_line_unfold(v: Seq<char>, pos: int, nm: Seq<char>, sv: SnippetV, rest: Seq<char>)
    requires
        0 <= pos <= v.len(),
        v.subrange(pos, v.len() as int) == line_of(nm, sv) + rest,
    ensures
        lit_at(v, pos, seq![' ', ' ', '"']),
        v.subrange(pos + 3, v.len() as int) == esc(nm) + seq!['"'] + v.subrange(
            pos + 3 + esc(nm).len() + 1,
            v.len() as int,
        ),
        lit_at(v, pos + 3 + esc(nm).len() + 1, sep_content()),
        v.subrange(pos + 3 + esc(nm).len() + 17, v.len() as int) == esc(sv.content) + seq!['"']
            + v.subrange(pos + 3 + esc(nm).len() + 17 + esc(sv.content).len() + 1, v.len() as int),
        lit_at(v, pos + 3 + esc(nm).len() + 17 + esc(sv.content).len() + 1, sep_created()),
        v.subrange(
            pos + 3 + esc(nm).len() + 17 + esc(sv.content).len() + 18,
            v.len() as int,
        ) == rfc3339(sv.created_at) + seq!['"'] + v.subrange(
            pos + 3 + esc(nm).len() + 17 + esc(sv.content).len() + 18 + rfc3339(
                sv.created_at,
            ).len() + 1,
            v.len() as int,
        ),
        lit_at(
            v,
            pos + 3 + esc(nm).len() + 17 + esc(sv.content).len() + 18 + rfc3339(
                sv.created_at,
            ).len() + 1,
            seq![' ', '}'],
        ),
        v.subrange(
            pos + 3 + esc(nm).len() + 17 + esc(sv.content).len() + 18 + rfc3339(
                sv.created_at,
            ).len() + 3,
            v.len() as int,
        ) == rest,
        pos + 3 + esc(nm).len() + 17 + esc(sv.content).len() + 18 + rfc3339(sv.created_at).len()
            + 3 <= v.len(),
{
    let l = v.len() as int;
    let ind = seq![' ', ' ', '"'];
    let en = esc(nm);
    let ec = esc(sv.content);
    let rf = rfc3339(sv.created_at);
    let n6 = seq![' ', '}'] + rest;
    let n5 = (rf + seq!['"']) + n6;
    let n4 = sep_created() + n5;
    let n3 = (ec + seq!['"']) + n4;
    let n2 = sep_content() + n3;
    let n1 = (en + seq!['"']) + n2;
    assert(line_of(nm, sv) + rest =~= ind + n1);
    lemma_suffix_step(v, pos, ind, n1);
    let q1 = pos + 3;
    lemma_suffix_step(v, q1, en + seq!['"'], n2);
    let q2 = q1 + en.len() + 1;
    lemma_suffix_step(v, q2, sep_content(), n3);
    let q3 = q2 + 16;
    lemma_suffix_step(v, q3, ec + seq!['"'], n4);
    let q4 = q3 + ec.len() + 1;
    lemma_suffix_step(v, q4, sep_created(), n5);
    let q5 = q4 + 17;
    lemma_suffix_step(v, q5, rf + seq!['"'], n6);
    let q6 = q5 + rf.len() + 1;
    lemma_suffix_step(v, q6, seq![' ', '}'], rest);
    assert(lit_at(v, pos, ind)) by {
        assert forall|k: int| 0 <= k < ind.len() implies v[pos + k] == ind[k] by {
            assert(v.subrange(pos, l)[k] == v[pos + k]);
            assert((ind + n1)[k] == ind[k]);
        }
    }
    assert(lit_at(v, q2, sep_content())) by {
        assert forall|k: int| 0 <= k < sep_content().len() implies v[q2 + k]
            == sep_content()[k] by {
            assert(v.subrange(q2, l)[k] == v[q2 + k]);
            assert((sep_content() + n3)[k] == sep_content()[k]);
        }
    }
    assert(lit_at(v, q4, sep_created())) by {
        assert forall|k: int| 0 <= k < sep_created().len() implies v[q4 + k]
            == sep_created()[k] by {
            assert(v.subrange(q4, l)[k] == v[q4 + k]);
            assert((sep_created() + n5)[k] == sep_created()[k]);
        }
    }
    assert(lit_at(v, q6, seq![' ', '}'])) by {
        assert forall|k: int| 0 <= k < 2 implies v[q6 + k] == seq![' ', '}'][k] by {
            assert(v.subrange(q6, l)[k] == v[q6 + k]);
            assert((seq![' ', '}'] + rest)[k] == seq![' ', '}'][k]);
        }
    }
    assert(v.subrange(q1, l) =~= en + seq!['"'] + v.subrange(q2, l));
    assert(v.subrange(q3, l) =~= ec + seq!['"'] + v.subrange(q4, l));
    assert(v.subrange(q5, l) =~= rf + seq!['"'] + v.subrange(q6, l));
}

/// What the text at the scan position must look like, for every candidate
/// string whose escaped form it continues.
proof fn lemma_scan_step(
    v: Seq<char>,
    start: int,
    i: int,
    acc: Seq<char>,
    cand: Seq<char>,
    u: Seq<char>,
)
    requires
        0 <= start <= i <= v.len(),
        v.subrange(start, v.len() as int) == esc(cand) + seq!['"'] + u,
        v.subrange(start, i) == esc(acc),
        acc.len() <= cand.len(),
        cand.subrange(0, acc.len() as int) == acc,
    ensures
        i - start == esc(acc).len(),
        acc.len() == cand.len() ==> i < v.len() && v[i] == '"',
        acc.len() < cand.len() ==> i + esc_char(cand[acc.len() as int]).len() <= v.len() && (
        forall|k: int|
            0 <= k < esc_char(cand[acc.len() as int]).len() ==> v[i + k] == #[trigger] esc_char(
                cand[acc.len() as int],
            )[k]),
{
    let l = v.len() as int;
    let al = acc.len() as int;
    let vp = cand.subrange(al, cand.len() as int);
    lemma_esc_concat(acc, vp);
    assert(acc + vp =~= cand);
    assert(esc(cand) == esc(acc) + esc(vp));
    assert(v.subrange(start, i).len() == i - start);
    assert((esc(cand) + seq!['"'] + u).len() == esc(cand).len() + 1 + u.len());
    assert(v.subrange(start, l).len() == l - start);
    if acc.len() == cand.len() {
        assert(vp.len() == 0);
        assert(esc(vp) =~= Seq::<char>::empty());
        assert(esc(cand) =~= esc(acc));
        assert(i < l);
        assert(v[i] == v.subrange(start, l)[i - start]);
        assert((esc(cand) + seq!['"'] + u)[esc(cand).len() as int] == '"');
    } else {
        let c = cand[al];
        assert(vp.len() > 0);
        assert(vp[0] == c);
        assert(esc(vp) == esc_char(c) + esc(vp.subrange(1, vp.len() as int)));
        assert(i + esc_char(c).len() <= l);
        assert forall|k: int| 0 <= k < esc_char(c).len() implies v[i + k] == #[trigger] esc_char(
            c,
        )[k] by {
            assert(v[i + k] == v.subrange(start, l)[i - start + k]);
            assert((esc(cand) + seq!['"'] + u)[i - start + k] == esc(cand)[i - start + k]);
            assert(esc(cand)[esc(acc).len() + k] == esc(vp)[k]);
            assert(esc(vp)[k] == esc_char(c)[k]);
        }
    }
}

/// Packages `lemma_scan_step` for every candidate at once.
proof fn step_facts(v: Seq<char>, start: int, i: int, acc: Seq<char>)
    requires
        0 <= start <= i <= v.len(),
        v.subrange(start, i) == esc(acc),
        forall|w: Seq<char>, u: Seq<char>|
            v.subrange(start, v.len() as int) == #[trigger] (esc(w) + seq!['"'] + u) ==> acc.len()
                <= w.len() && w.subrange(0, acc.len() as int) == acc,
    ensures
        forall|w: Seq<char>, u: Seq<char>|
            v.subrange(start, v.len() as int) == #[trigger] (esc(w) + seq!['"'] + u) ==> (acc.len()
                == w.len() ==> i < v.len() && v[i] == '"') && (acc.len() < w.len() ==> i + esc_char(
                w[acc.len() as int],
            ).len() <= v.len() && (forall|k: int|
                0 <= k < esc_char(w[acc.len() as int]).len() ==> v[i + k] == #[trigger] esc_char(
                    w[acc.len() as int],
                )[k])),
{
    assert forall|w: Seq<char>, u: Seq<char>|
        v.subrange(start, v.len() as int) == #[trigger] (esc(w) + seq!['"'] + u) implies (acc.len()
        == w.len() ==> i < v.len() && v[i] == '"') && (acc.len() < w.len() ==> i + esc_char(
        w[acc.len() as int],
    ).len() <= v.len() && (forall|k: int|
        0 <= k < esc_char(w[acc.len() as int]).len() ==> v[i + k] == #[trigger] esc_char(
            w[acc.len() as int],
        )[k])) by {
        lemma_scan_step(v, start, i, acc, w, u);
    }
}

/// After one escape group matched the text, the scanned text is the
/// escape of the extended prefix.
#[verifier::rlimit(100)]
proof fn lemma_esc_extend(v: Seq<char>, start: int, i: int, acc_new: Seq<char>, c: char)
    requires
        0 <= start <= i <= v.len(),
        acc_new.len() >= 1,
        acc_new.last() == c,
        v.subrange(start, i) == esc(acc_new.drop_last()),
        i + esc_char(c).len() <= v.len(),
        forall|k: int| 0 <= k < esc_char(c).len() ==> v[i + k] == #[trigger] esc_char(c)[k],
    ensures
        v.subrange(start, i + esc_char(c).len()) == esc(acc_new),
{
    let acc = acc_new.drop_last();
    lemma_esc_concat(acc, seq![c]);
    assert(seq![c].subrange(1, 1) =~= Seq::<char>::empty());
    assert(esc(seq![c]) == esc_char(seq![c][0]) + esc(seq![c].subrange(1, 1)));
    assert(esc(Seq::<char>::empty()) =~= Seq::<char>::empty());
    assert(esc(seq![c]) =~= esc_char(c));
    assert(acc + seq![c] =~= acc_new);
    assert(esc(acc_new) == esc(acc) + esc_char(c));
    assert forall|k: int| 0 <= k < esc(acc_new).len() implies v.subrange(
        start,
        i + esc_char(c).len(),
    )[k] == esc(acc_new)[k] by {
        assert(v.subrange(start, i + esc_char(c).len())[k] == v[start + k]);
        if k < esc(acc).len() {
            assert(v.subrange(start, i)[k] == v[start + k]);
            assert(esc(acc_new)[k] == esc(acc)[k]);
        } else {
            assert(start + k == i + (k - esc(acc).len()));
            assert(v[i + (k - esc(acc).len())] == esc_char(c)[k - esc(acc).len()]);
            assert(esc(acc_new)[k] == esc_char(c)[k - esc(acc).len()]);
        }
    }
    assert(v.subrange(start, i + esc_char(c).len()) =~= esc(acc_new));
}

/// After one escape group matched the text, the scanned prefix is still a
/// prefix of every candidate, one character longer.
#[verifier::rlimit(100)]
proof fn lemma_scan_extend(v: Seq<char>, start: int, i: int, acc_new: Seq<char>, c: char)
    requires
        0 <= start <= i <= v.len(),
        acc_new.len() >= 1,
        acc_new.last() == c,
        v.subrange(start, i) == esc(acc_new.drop_last()),
        i + esc_char(c).len() <= v.len(),
        forall|k: int| 0 <= k < esc_char(c).len() ==> v[i + k] == #[trigger] esc_char(c)[k],
        forall|w: Seq<char>, u: Seq<char>|
            v.subrange(start, v.len() as int) == #[trigger] (esc(w) + seq!['"'] + u)
                ==> acc_new.drop_last().len() <= w.len() && w.subrange(
                0,
                acc_new.drop_last().len() as int,
            ) == acc_new.drop_last(),
    ensures
        v.subrange(start, i + esc_char(c).len()) == esc(acc_new),
        forall|w: Seq<char>, u: Seq<char>|
            v.subrange(start, v.len() as int) == #[trigger] (esc(w) + seq!['"'] + u)
                ==> acc_new.len() <= w.len() && w.subrange(0, acc_new.len() as int) == acc_new,
{
    let acc = acc_new.drop_last();
    lemma_esc_extend(v, start, i, acc_new, c);
    assert forall|w: Seq<char>, u: Seq<char>|
        v.subrange(start, v.len() as int) == #[trigger] (esc(w) + seq!['"'] + u) implies acc_new.len()
        <= w.len() && w.subrange(0, acc_new.len() as int) == acc_new by {
        lemma_scan_step(v, start, i, acc, w, u);
        if acc.len() == w.len() {
            assert(v[i] == '"');
            assert(v[i] == esc_char(c)[0]);
            assert(false);
        }
        let cw = w[acc.len() as int];
        assert(v[i] == esc_char(cw)[0]);
        assert(v[i] == esc_char(c)[0]);
        if cw == '"' || cw == '\\' || cw == '\n' {
            assert(esc_char(cw)[0] == '\\');
            assert(c == '"' || c == '\\' || c == '\n');
            assert(v[i + 1] == esc_char(cw)[1]);
            assert(v[i + 1] == esc_char(c)[1]);
            assert(cw == c);
        } else {
            assert(esc_char(cw)[0] == cw);
            if c == '"' || c == '\\' || c == '\n' {
                assert(esc_char(c)[0] == '\\');
                assert(cw == '\\');
                assert(false);
            }
            assert(esc_char(c)[0] == c);
            assert(cw == c);
        }
        assert(w.subrange(0, acc.len() as int + 1) =~= w.subrange(0, acc.len() as int) + seq![cw]);
        assert(acc + seq![c] =~= acc_new);
        assert(w.subrange(0, acc_new.len() as int) == acc_new);
    }
}

/// Scan a quoted string's remainder: starts after the opening quote, undoes
/// the escapes, and stops behind the closing quote. Accepts exactly the
/// escaped form the renderer writes: whenever the remaining text is an
/// escaped string, a closing quote and anything, the scan succeeds with
/// exactly that string.
#[verifier::rlimit(100)]
fn scan_string(s: &str, start: usize, n: usize) -> (r: Option<(String, usize)>)
    requires
        n == s@.len(),
        start <= n,
    ensures
        r matches Some(p) ==> start < p.1 <= n,
        forall|v: Seq<char>, u: Seq<char>|
            s@.subrange(start as int, n as int) == #[trigger] (esc(v) + seq!['"'] + u) ==> (r
                matches Some(p) && p.0@ == v && p.1 as int == start as int + esc(v).len() + 1),
{
    let mut out = String::new();
    let mut i: usize = start;
    proof {
        assert(s@.subrange(start as int, start as int) =~= esc(out@));
    }
    loop
        invariant
            n == s@.len(),
            start <= i <= n,
            s@.subrange(start as int, i as int) == esc(out@),
            forall|v: Seq<char>, u: Seq<char>|
                s@.subrange(start as int, n as int) == #[trigger] (esc(v) + seq!['"'] + u)
                    ==> out@.len() <= v.len() && v.subrange(0, out@.len() as int) == out@,
        decreases n - i,
    {
        proof {
            step_facts(s@, start as int, i as int, out@);
        }
        if i >= n {
            proof {
                assert forall|v: Seq<char>, u: Seq<char>|
                    s@.subrange(start as int, n as int) != #[trigger] (esc(v) + seq!['"']
                        + u) by {
                    if s@.subrange(start as int, n as int) == esc(v) + seq!['"'] + u {
                        if out@.len() < v.len() {
                            assert(esc_char(v[out@.len() as int]).len() >= 1);
                        }
                    }
                }
            }
            return None;
        }
        let c = s.get_char(i);
        if c == '"' {
            proof {
                assert forall|v: Seq<char>, u: Seq<char>|
                    s@.subrange(start as int, n as int) == #[trigger] (esc(v) + seq!['"']
                        + u) implies out@ == v && i + 1 == start as int + esc(v).len() + 1 by {
                    if out@.len() < v.len() {
                        assert(s@[i as int] == esc_char(v[out@.len() as int])[0]);
                        assert(esc_char(v[out@.len() as int])[0] != '"');
                        assert(false);
                    }
                    assert(v.subrange(0, v.len() as int) =~= v);
                    assert(s@.subrange(start as int, i as int).len() == i - start as int);
                }
            }
            return Some((out, i + 1));
        }
        if c == '\\' {
            if n - i < 2 {
                proof {
                    refute_after_backslash(s@, start as int, i as int, out@, n as int);
                }
                return None;
            }
            let d = s.get_char(i + 1);
            if d == '\\' {
                let ghost prev = out@;
                push_char(&mut out, '\\');
                proof {
                    assert(out@.drop_last() =~= prev);
                    lemma_scan_extend(s@, start as int, i as int, out@, '\\');
                }
                i = i + 2;
            } else if d == 'n' {
                let ghost prev = out@;
                push_char(&mut out, '\n');
                proof {
                    assert(out@.drop_last() =~= prev);
                    lemma_scan_extend(s@, start as int, i as int, out@, '\n');
                }
                i = i + 2;
            } else if d == 'u' {
                if n - i < 6 {
                    proof {
                        refute_after_backslash(s@, start as int, i as int, out@, n as int);
                    }
                    return None;
                }
                if s.get_char(i + 2) == '0' && s.get_char(i + 3) == '0' && s.get_char(i + 4) == '2'
                    && s.get_char(i + 5) == '2' {
                    let ghost prev = out@;
                    push_char(&mut out, '"');
                    proof {
                        assert(out@.drop_last() =~= prev);
                        lemma_scan_extend(s@, start as int, i as int, out@, '"');
                    }
                    i = i + 6;
                } else {
                    proof {
                        refute_after_backslash(s@, start as int, i as int, out@, n as int);
                    }
                    return None;
                }
            } else {
                proof {
                    refute_after_backslash(s@, start as int, i as int, out@, n as int);
                }
                return None;
            }
        } else if c == '\n' {
            // The renderer always escapes a newline, so a raw one cannot
            // come from a rendered document.
            proof {
                assert forall|v: Seq<char>, u: Seq<char>|
                    s@.subrange(start as int, n as int) != #[trigger] (esc(v) + seq!['"'] + u) by {
                    if s@.subrange(start as int, n as int) == esc(v) + seq!['"'] + u {
                        if out@.len() == v.len() {
                            assert(s@[i as int] == '"');
                        } else {
                            assert(s@[i as int] == esc_char(v[out@.len() as int])[0]);
                        }
                    }
                }
            }
            return None;
        } else {
            let ghost prev = out@;
            push_char(&mut out, c);
            proof {
                assert(out@.drop_last() =~= prev);
                lemma_scan_extend(s@, start as int, i as int, out@, c);
            }
            i = i + 1;
        }
    }
}

/// No candidate survives when the two characters after an opening backslash
/// do not match any escape the renderer writes; used by the rejecting arms.
proof fn refute_after_backslash(v: Seq<char>, start: int, i: int, acc: Seq<char>, n: int)
    requires
        n == v.len(),
        0 <= start <= i < n,
        v[i] == '\\',
        v.subrange(start, i) == esc(acc),
        forall|w: Seq<char>, u: Seq<char>|
            v.subrange(start, v.len() as int) == #[trigger] (esc(w) + seq!['"'] + u) ==> acc.len()
                <= w.len() && w.subrange(0, acc.len() as int) == acc,
    ensures
        forall|w: Seq<char>, u: Seq<char>|
            v.subrange(start, v.len() as int) == #[trigger] (esc(w) + seq!['"'] + u) ==> {
                let cw = w[acc.len() as int];
                acc.len() < w.len() && (cw == '"' || cw == '\\' || cw == '\n') && i + esc_char(
                    cw,
                ).len() <= n && v[i + 1] == esc_char(cw)[1] && (cw == '"' ==> v[i + 1] == 'u' && v[i
                    + 2] == '0' && v[i + 3] == '0' && v[i + 4] == '2' && v[i + 5] == '2') && (cw
                    == '\\' ==> v[i + 1] == '\\') && (cw == '\n' ==> v[i + 1] == 'n')
            },
{
    assert forall|w: Seq<char>, u: Seq<char>|
        v.subrange(start, v.len() as int) == #[trigger] (esc(w) + seq!['"'] + u) implies {
        let cw = w[acc.len() as int];
        acc.len() < w.len() && (cw == '"' || cw == '\\' || cw == '\n') && i + esc_char(cw).len()
            <= n && v[i + 1] == esc_char(cw)[1] && (cw == '"' ==> v[i + 1] == 'u' && v[i + 2] == '0'
            && v[i + 3] == '0' && v[i + 4] == '2' && v[i + 5] == '2') && (cw == '\\' ==> v[i + 1]
            == '\\') && (cw == '\n' ==> v[i + 1] == 'n')
    } by {
        lemma_scan_step(v, start, i, acc, w, u);
        if acc.len() == w.len() {
            assert(v[i] == '"');
            assert(false);
        }
        let cw = w[acc.len() as int];
        assert(v[i] == esc_char(cw)[0]);
        if !(cw == '"' || cw == '\\' || cw == '\n') {
            assert(esc_char(cw)[0] == cw);
            assert(false);
        }
    }
}

/// Check that the literal `lit` stands at `i`; the position after it if so.
/// Whenever the literal does stand there, the check succeeds.
fn scan_literal(s: &str, i: usize, n: usize, lit: &str) -> (r: Option<usize>)
    requires
        n == s@.len(),
        i <= n,
    ensures
        r matches Some(j) ==> i <= j <= n,
        lit_at(s@, i as int, lit@) ==> (r matches Some(j) && j as int == i as int + lit@.len()),
{
    let l = lit.unicode_len();
    if l > n - i {
        proof {
            assert(!lit_at(s@, i as int, lit@));
        }
        return None;
    }
    let mut k: usize = 0;
    while k < l
        invariant
            n == s@.len(),
            l == lit@.len(),
            i + l <= n,
            k <= l,
        decreases l - k,
    {
        if s.get_char(i + k) != lit.get_char(k) {
            proof {
                assert(!lit_at(s@, i as int, lit@)) by {
                    if lit_at(s@, i as int, lit@) {
                        assert(s@[i as int + k as int] == lit@[k as int]);
                    }
                }
            }
            return None;
        }
        k = k + 1;
    }
    Some(i + l)
}

/// Scan ahead to the next quote; the stretch before it and the position
/// after it. Whenever a quote-free stretch and a quote follow, the scan
/// succeeds with exactly that stretch.
fn scan_to_quote(s: &str, start: usize, n: usize) -> (r: Option<(String, usize)>)
    requires
        n == s@.len(),
        start <= n,
    ensures
        r matches Some(p) ==> start < p.1 <= n,
        forall|w: Seq<char>, u: Seq<char>|
            (forall|k: int| 0 <= k < w.len() ==> #[trigger] w[k] != '"') && s@.subrange(
                start as int,
                n as int,
            ) == #[trigger] (w + seq!['"'] + u) ==> (r matches Some(p) && p.0@ == w && p.1 as int
                == start as int + w.len() + 1),
{
    let mut out = String::new();
    let mut i: usize = start;
    proof {
        assert(s@.subrange(start as int, start as int) =~= out@);
    }
    while i < n
        invariant
            n == s@.len(),
            start <= i <= n,
            out@ == s@.subrange(start as int, i as int),
            forall|k: int| start <= k < i ==> s@[k] != '"',
        decreases n - i,
    {
        let c = s.get_char(i);
        if c == '"' {
            proof {
                assert forall|w: Seq<char>, u: Seq<char>|
                    (forall|k: int| 0 <= k < w.len() ==> #[trigger] w[k] != '"') && s@.subrange(
                        start as int,
                        n as int,
                    ) == #[trigger] (w + seq!['"'] + u) implies out@ == w && i + 1
                    == start as int + w.len() + 1 by {
                    let l = n as int;
                    assert((w + seq!['"'] + u).len() == w.len() + 1 + u.len());
                    if i - start < w.len() {
                        assert(s@[i as int] == s@.subrange(start as int, l)[i - start as int]);
                        assert((w + seq!['"'] + u)[i - start as int] == w[i - start as int]);
                        assert(false);
                    }
                    if i - start > w.len() {
                        assert(s@[start + w.len()] == s@.subrange(start as int, l)[w.len() as int]);
                        assert((w + seq!['"'] + u)[w.len() as int] == '"');
                        assert(false);
                    }
                    assert forall|k: int| 0 <= k < w.len() implies out@[k] == w[k] by {
                        assert(out@[k] == s@[start + k]);
                        assert(s@.subrange(start as int, l)[k] == s@[start + k]);
                        assert((w + seq!['"'] + u)[k] == w[k]);
                    }
                    assert(out@ =~= w);
                }
            }
            return Some((out, i + 1));
        }
        push_char(&mut out, c);
        proof {
            assert(out@ =~= s@.subrange(start as int, i + 1));
        }
        i = i + 1;
    }
    proof {
        assert forall|w: Seq<char>, u: Seq<char>|
            !((forall|k: int| 0 <= k < w.len() ==> #[trigger] w[k] != '"') && s@.subrange(
                start as int,
                n as int,
            ) == #[trigger] (w + seq!['"'] + u)) by {
            if (forall|k: int| 0 <= k < w.len() ==> #[trigger] w[k] != '"') && s@.subrange(
                start as int,
                n as int,
            ) == w + seq!['"'] + u {
                assert((w + seq!['"'] + u).len() == w.len() + 1 + u.len());
                assert(s@[start + w.len()] == s@.subrange(start as int, n as int)[w.len() as int]);
                assert((w + seq!['"'] + u)[w.len() as int] == '"');
            }
        }
    }
    None
}

/// Scan one entry's line at `pos`: the name, the content, the stamp and
/// the position after the closing ` }`. Whenever the text at `pos` is a
/// line followed by anything, the scan succeeds with exactly that line's
/// fields.
#[verifier::rlimit(100)]
fn scan_entry(s: &str, pos: usize, n: usize) -> (r: Option<(String, String, Timestamp, usize)>)
    requires
        n == s@.len(),
        pos <= n,
    ensures
        r matches Some(q) ==> pos < q.3 <= n && q.2.wf(),
        forall|nm: Seq<char>, sv: SnippetV, rest: Seq<char>|
            sv.created_at.wf() && s@.subrange(pos as int, n as int) == #[trigger] (line_of(nm, sv)
                + rest) ==> (r matches Some(q) && q.0@ == nm && q.1@ == sv.content && q.2
                == sv.created_at && s@.subrange(q.3 as int, n as int) == rest && q.3 as int
                >= pos + 3),
{
    proof {
        reveal_strlit("  \"");
        reveal_strlit(": { \"content\": \"");
        reveal_strlit(", \"created_at\": \"");
        reveal_strlit(" }");
        assert("  \""@ =~= seq![' ', ' ', '"']);
        assert(": { \"content\": \""@ =~= sep_content());
        assert(", \"created_at\": \""@ =~= sep_created());
        assert(" }"@ =~= seq![' ', '}']);
    }
    let ghost pos_g = pos as int;
    let p0 = match scan_literal(s, pos, n, "  \"") {
        Some(j) => j,
        None => {
            proof {
                refute_line(s@, pos_g, n as int);
            }
            return None;
        },
    };
    let (name, p1) = match scan_string(s, p0, n) {
        Some(p) => p,
        None => {
            proof {
                refute_line(s@, pos_g, n as int);
            }
            return None;
        },
    };
    let p2 = match scan_literal(s, p1, n, ": { \"content\": \"") {
        Some(j) => j,
        None => {
            proof {
                refute_line(s@, pos_g, n as int);
            }
            return None;
        },
    };
    let (content, p3) = match scan_string(s, p2, n) {
        Some(p) => p,
        None => {
            proof {
                refute_line(s@, pos_g, n as int);
            }
            return None;
        },
    };
    let p4 = match scan_literal(s, p3, n, ", \"created_at\": \"") {
        Some(j) => j,
        None => {
            proof {
                refute_line(s@, pos_g, n as int);
            }
            return None;
        },
    };
    let (stamp_text, p5) = match scan_to_quote(s, p4, n) {
        Some(p) => p,
        None => {
            proof {
                refute_line(s@, pos_g, n as int);
            }
            return None;
        },
    };
    let created_at = match parse_rfc3339(stamp_text.as_str()) {
        Ok(t) => t,
        Err(_) => {
            proof {
                assert forall|nm: Seq<char>, sv: SnippetV, rest: Seq<char>|
                    !(sv.created_at.wf() && s@.subrange(pos_g, n as int) == #[trigger] (line_of(
                        nm,
                        sv,
                    ) + rest)) by {
                    if sv.created_at.wf() && s@.subrange(pos_g, n as int) == line_of(nm, sv)
                        + rest {
                        lemma_line_unfold(s@, pos_g, nm, sv, rest);
                        lemma_rfc3339_no_specials(sv.created_at);
                        assert(stamp_text@ == rfc3339(sv.created_at));
                    }
                }
            }
            return None;
        },
    };
    let p6 = match scan_literal(s, p5, n, " }") {
        Some(j) => j,
        None => {
            proof {
                refute_line(s@, pos_g, n as int);
            }
            return None;
        },
    };
    proof {
        assert forall|nm: Seq<char>, sv: SnippetV, rest: Seq<char>|
            sv.created_at.wf() && s@.subrange(pos_g, n as int) == #[trigger] (line_of(nm, sv)
                + rest) implies name@ == nm && content@ == sv.content && created_at
            == sv.created_at && s@.subrange(p6 as int, n as int) == rest && p6 as int
            >= pos_g + 3 by {
            lemma_line_unfold(s@, pos_g, nm, sv, rest);
            lemma_rfc3339_no_specials(sv.created_at);
            assert(stamp_text@ == rfc3339(sv.created_at));
        }
    }
    Some((name, content, created_at, p6))
}

/// Nothing that begins as an entry's line survives when one of the line's
/// scanners has refused; the caller's contradiction comes from the scanner
/// clauses in scope, this packages the unfolding they need.
proof fn refute_line(v: Seq<char>, pos: int, n: int)
    requires
        n == v.len(),
        0 <= pos <= n,
    ensures
        forall|nm: Seq<char>, sv: SnippetV, rest: Seq<char>|
            sv.created_at.wf() && v.subrange(pos, n) == #[trigger] (line_of(nm, sv) + rest)
                ==> lit_at(v, pos, seq![' ', ' ', '"']) && v.subrange(pos + 3, n) == esc(nm)
                + seq!['"'] + v.subrange(pos + 3 + esc(nm).len() + 1, n) && lit_at(
                v,
                pos + 3 + esc(nm).len() + 1,
                sep_content(),
            ) && v.subrange(pos + 3 + esc(nm).len() + 17, n) == esc(sv.content) + seq!['"']
                + v.subrange(pos + 3 + esc(nm).len() + 17 + esc(sv.content).len() + 1, n) && lit_at(
                v,
                pos + 3 + esc(nm).len() + 17 + esc(sv.content).len() + 1,
                sep_created(),
            ) && v.subrange(pos + 3 + esc(nm).len() + 17 + esc(sv.content).len() + 18, n)
                == rfc3339(sv.created_at) + seq!['"'] + v.subrange(
                pos + 3 + esc(nm).len() + 17 + esc(sv.content).len() + 18 + rfc3339(
                    sv.created_at,
                ).len() + 1,
                n,
            ) && lit_at(
                v,
                pos + 3 + esc(nm).len() + 17 + esc(sv.content).len() + 18 + rfc3339(
                    sv.created_at,
                ).len() + 1,
                seq![' ', '}'],
            ) && (forall|k: int|
                0 <= k < rfc3339(sv.created_at).len() ==> #[trigger] rfc3339(sv.created_at)[k]
                    != '"'),
{
    assert forall|nm: Seq<char>, sv: SnippetV, rest: Seq<char>|
        sv.created_at.wf() && v.subrange(pos, n) == #[trigger] (line_of(nm, sv) + rest)
            implies lit_at(v, pos, seq![' ', ' ', '"']) && v.subrange(pos + 3, n) == esc(nm)
        + seq!['"'] + v.subrange(pos + 3 + esc(nm).len() + 1, n) && lit_at(
        v,
        pos + 3 + esc(nm).len() + 1,
        sep_content(),
    ) && v.subrange(pos + 3 + esc(nm).len() + 17, n) == esc(sv.content) + seq!['"'] + v.subrange(
        pos + 3 + esc(nm).len() + 17 + esc(sv.content).len() + 1,
        n,
    ) && lit_at(v, pos + 3 + esc(nm).len() + 17 + esc(sv.content).len() + 1, sep_created())
        && v.subrange(pos + 3 + esc(nm).len() + 17 + esc(sv.content).len() + 18, n) == rfc3339(
        sv.created_at,
    ) + seq!['"'] + v.subrange(
        pos + 3 + esc(nm).len() + 17 + esc(sv.content).len() + 18 + rfc3339(sv.created_at).len()
            + 1,
        n,
    ) && lit_at(
        v,
        pos + 3 + esc(nm).len() + 17 + esc(sv.content).len() + 18 + rfc3339(sv.created_at).len()
            + 1,
        seq![' ', '}'],
    ) && (forall|k: int|
        0 <= k < rfc3339(sv.created_at).len() ==> #[trigger] rfc3339(sv.created_at)[k] != '"') by {
        lemma_line_unfold(v, pos, nm, sv, rest);
        lemma_rfc3339_no_specials(sv.created_at);
    }
}

/// A scan of a document into a collection. Sound through the re-render
/// check in `parse_document`; complete on its own contract: a rendered
/// well-formed entry sequence always scans back to exactly that sequence.
#[verifier::rlimit(100)]
#[verifier::loop_isolation(false)]
fn scan_document(s: &str) -> (r: Option<Collection>)
    ensures
        r matches Some(c) ==> c.wf(),
        forall|m: Seq<(Seq<char>, SnippetV)>|
            wf_pairs(m) && #[trigger] render(m) == s@ ==> (r matches Some(c) && pairs_of(
                c.entries@,
            ) == m),
{
    let n = s.unicode_len();
    let mut col = Collection::new();
    if n < 2 || s.get_char(0) != '{' {
        proof {
            assert forall|m: Seq<(Seq<char>, SnippetV)>|
                !(wf_pairs(m) && #[trigger] render(m) == s@) by {
                if wf_pairs(m) && render(m) == s@ {
                    lemma_render_shape(m);
                }
            }
        }
        return None;
    }
    if n == 2 {
        if s.get_char(1) == '}' {
            proof {
                assert forall|m: Seq<(Seq<char>, SnippetV)>|
                    wf_pairs(m) && #[trigger] render(m) == s@ implies pairs_of(col.entries@)
                    == m by {
                    lemma_render_shape(m);
                    assert(m.len() == 0);
                    assert(pairs_of(col.entries@) =~= m);
                }
            }
            return Some(col);
        }
        proof {
            assert forall|m: Seq<(Seq<char>, SnippetV)>|
                !(wf_pairs(m) && #[trigger] render(m) == s@) by {
                if wf_pairs(m) && render(m) == s@ {
                    lemma_render_shape(m);
                }
            }
        }
        return None;
    }
    if s.get_char(1) != '\n' {
        proof {
            assert forall|m: Seq<(Seq<char>, SnippetV)>|
                !(wf_pairs(m) && #[trigger] render(m) == s@) by {
                if wf_pairs(m) && render(m) == s@ {
                    lemma_render_shape(m);
                }
            }
        }
        return None;
    }
    let mut pos: usize = 2;
    proof {
        reveal_strlit(",\n");
        assert(",\n"@ =~= seq![',', '\n']);
        assert forall|m: Seq<(Seq<char>, SnippetV)>|
            wf_pairs(m) && #[trigger] render(m) == s@ implies pairs_of(col.entries@).len()
            < m.len() && m.subrange(0, pairs_of(col.entries@).len() as int) == pairs_of(
            col.entries@,
        ) && s@.subrange(pos as int, n as int) == line_of(
            m[pairs_of(col.entries@).len() as int].0,
            m[pairs_of(col.entries@).len() as int].1,
        ) + doc_suffix(m, pairs_of(col.entries@).len() as int + 1) by {
            lemma_render_shape(m);
            assert(m.len() > 0);
            assert(s@.subrange(0, n as int) =~= s@);
            assert(s@ =~= seq!['{', '\n'] + (body_of(m) + seq!['\n', '}']));
            lemma_suffix_step(s@, 0, seq!['{', '\n'], body_of(m) + seq!['\n', '}']);
            assert(m.subrange(0, m.len() as int) =~= m);
            lemma_suffix_decomp(m, 0);
            assert(pairs_of(col.entries@) =~= m.subrange(0, 0));
        }
    }
    loop
        invariant
            2 <= pos <= n,
            col.wf(),
            forall|m: Seq<(Seq<char>, SnippetV)>|
                wf_pairs(m) && #[trigger] render(m) == s@ ==> pairs_of(col.entries@).len()
                    < m.len() && m.subrange(0, pairs_of(col.entries@).len() as int) == pairs_of(
                    col.entries@,
                ) && s@.subrange(pos as int, n as int) == line_of(
                    m[pairs_of(col.entries@).len() as int].0,
                    m[pairs_of(col.entries@).len() as int].1,
                ) + doc_suffix(m, pairs_of(col.entries@).len() as int + 1),
        decreases n - pos,
    {
        let ghost p0 = pairs_of(col.entries@);
        let ghost pos_g = pos as int;
        let pos0 = pos;
        let (name, content, created_at, pos_after) = match scan_entry(s, pos, n) {
            Some(q) => q,
            None => {
                proof {
                    assert forall|m: Seq<(Seq<char>, SnippetV)>|
                        !(wf_pairs(m) && #[trigger] render(m) == s@) by {
                        if wf_pairs(m) && render(m) == s@ {
                            let k = p0.len() as int;
                            assert(m[k].1.created_at.wf());
                        }
                    }
                }
                return None;
            },
        };
        pos = pos_after;
        proof {
            assert forall|m: Seq<(Seq<char>, SnippetV)>|
                wf_pairs(m) && #[trigger] render(m) == s@ implies name@ == m[p0.len() as int].0
                && content@ == m[p0.len() as int].1.content && created_at
                == m[p0.len() as int].1.created_at && s@.subrange(pos as int, n as int)
                == doc_suffix(m, p0.len() as int + 1) by {
                let k = p0.len() as int;
                assert(m[k].1.created_at.wf());
            }
        }
        if col.get(name.as_str()).is_some() {
            // A duplicate key cannot come from a rendered collection.
            proof {
                assert forall|m: Seq<(Seq<char>, SnippetV)>|
                    !(wf_pairs(m) && #[trigger] render(m) == s@) by {
                    if wf_pairs(m) && render(m) == s@ {
                        let k = p0.len() as int;
                        lemma_map_of_domain(p0);
                        let j = choose|j: int| 0 <= j < p0.len() && (#[trigger] p0[j]).0 == name@;
                        assert(m.subrange(0, k)[j] == p0[j]);
                        assert(m[j].0 == m[k].0);
                    }
                }
            }
            return None;
        }
        col.insert(name, Snippet { content, created_at });
        proof {
            assert forall|m: Seq<(Seq<char>, SnippetV)>|
                wf_pairs(m) && #[trigger] render(m) == s@ implies pairs_of(col.entries@)
                == m.subrange(0, p0.len() as int + 1) && pairs_of(col.entries@).len() == p0.len()
                + 1 by {
                let k = p0.len() as int;
                assert(pairs_of(col.entries@) =~= p0.push((m[k].0, m[k].1)));
                assert(m.subrange(0, k + 1) =~= m.subrange(0, k).push(m[k]));
            }
        }
        if n - pos == 2 {
            if s.get_char(pos) == '\n' && s.get_char(pos + 1) == '}' {
                proof {
                    assert forall|m: Seq<(Seq<char>, SnippetV)>|
                        wf_pairs(m) && #[trigger] render(m) == s@ implies pairs_of(col.entries@)
                        == m by {
                        let k = p0.len() as int;
                        lemma_suffix_len(m, k + 1);
                        assert(doc_suffix(m, k + 1).len() == 2);
                        assert(k + 1 >= m.len());
                        assert(m.subrange(0, k + 1) =~= m);
                    }
                }
                return Some(col);
            }
            proof {
                assert forall|m: Seq<(Seq<char>, SnippetV)>|
                    !(wf_pairs(m) && #[trigger] render(m) == s@) by {
                    if wf_pairs(m) && render(m) == s@ {
                        let k = p0.len() as int;
                        lemma_suffix_len(m, k + 1);
                        assert(doc_suffix(m, k + 1).len() == 2);
                        assert(doc_suffix(m, k + 1) == seq!['\n', '}']);
                        assert(s@.subrange(pos as int, n as int)[0] == s@[pos as int]);
                        assert(s@.subrange(pos as int, n as int)[1] == s@[pos as int + 1]);
                    }
                }
            }
            return None;
        }
        let ghost pos_h = pos as int;
        pos = match scan_literal(s, pos, n, ",\n") {
            Some(j) => j,
            None => {
                proof {
                    assert forall|m: Seq<(Seq<char>, SnippetV)>|
                        !(wf_pairs(m) && #[trigger] render(m) == s@) by {
                        if wf_pairs(m) && render(m) == s@ {
                            let k = p0.len() as int;
                            if k + 1 >= m.len() {
                                lemma_suffix_len(m, k + 1);
                                assert(doc_suffix(m, k + 1).len() == 2);
                            } else {
                                assert(lit_at(s@, pos_h, seq![',', '\n'])) by {
                                    assert forall|t: int| 0 <= t < 2 implies s@[pos_h + t]
                                        == seq![',', '\n'][t] by {
                                        assert(s@.subrange(pos_h, n as int)[t] == s@[pos_h + t]);
                                        assert((seq![',', '\n'] + line_of(m[k + 1].0, m[k + 1].1)
                                            + doc_suffix(m, k + 2))[t] == seq![',', '\n'][t]);
                                    }
                                }
                                assert(lit_at(s@, pos_h, ",\n"@));
                            }
                        }
                    }
                }
                return None;
            },
        };
        proof {
            assert forall|m: Seq<(Seq<char>, SnippetV)>|
                wf_pairs(m) && #[trigger] render(m) == s@ implies pairs_of(col.entries@).len()
                < m.len() && m.subrange(0, pairs_of(col.entries@).len() as int) == pairs_of(
                col.entries@,
            ) && s@.subrange(pos as int, n as int) == line_of(
                m[pairs_of(col.entries@).len() as int].0,
                m[pairs_of(col.entries@).len() as int].1,
            ) + doc_suffix(m, pairs_of(col.entries@).len() as int + 1) by {
                let k = p0.len() as int;
                if k + 1 >= m.len() {
                    lemma_suffix_len(m, k + 1);
                    assert(doc_suffix(m, k + 1).len() == 2);
                    assert(n as int - pos_h == 2);
                    assert(false);
                }
                assert(doc_suffix(m, k + 1) =~= seq![',', '\n'] + (line_of(m[k + 1].0, m[k + 1].1)
                    + doc_suffix(m, k + 2)));
                lemma_suffix_step(
                    s@,
                    pos_h,
                    seq![',', '\n'],
                    line_of(m[k + 1].0, m[k + 1].1) + doc_suffix(m, k + 2),
                );
                assert(lit_at(s@, pos_h, seq![',', '\n'])) by {
                    assert forall|t: int| 0 <= t < 2 implies s@[pos_h + t]
                        == seq![',', '\n'][t] by {
                        assert(s@.subrange(pos_h, n as int)[t] == s@[pos_h + t]);
                        assert((seq![',', '\n'] + (line_of(m[k + 1].0, m[k + 1].1) + doc_suffix(
                            m,
                            k + 2,
                        )))[t] == seq![',', '\n'][t]);
                    }
                }
                assert(lit_at(s@, pos_h, ",\n"@));
            }
        }
        if pos <= pos0 {
            proof {
                assert forall|m: Seq<(Seq<char>, SnippetV)>|
                    !(wf_pairs(m) && #[trigger] render(m) == s@) by {
                    if wf_pairs(m) && render(m) == s@ {
                        assert(pos_h >= pos_g + 3);
                    }
                }
            }
            return None;
        }
    }
}

/// Parse a document: accepts exactly the canonical renderings — every
/// rendered well-formed collection parses back, to itself — and a text that
/// is no rendering is a fatal parse error, never treated as missing.
pub fn parse_document(s: &str) -> (r: Result<Collection, StorageError>)
    ensures
        r matches Ok(c) ==> c.wf() && render(pairs_of(c.entries@)) == s@,
        r matches Ok(c) ==> forall|m: Seq<(Seq<char>, SnippetV)>|
            wf_pairs(m) && render(m) == s@ ==> m == pairs_of(c.entries@),
        r matches Err(e) ==> e == StorageError::Parse && (forall|m: Seq<(Seq<char>, SnippetV)>|
            wf_pairs(m) ==> #[trigger] render(m) != s@),
{
    let col = match scan_document(s) {
        Some(c) => c,
        None => {
            return Err(StorageError::Parse);
        },
    };
    let back = render_document(&col);
    if crate::strutil::str_eq(back.as_str(), s) {
        proof {
            assert forall|m: Seq<(Seq<char>, SnippetV)>|
                wf_pairs(m) && render(m) == s@ implies m == pairs_of(col.entries@) by {
                lemma_render_injective(m, pairs_of(col.entries@));
            }
        }
        Ok(col)
    } else {
        proof {
            assert forall|m: Seq<(Seq<char>, SnippetV)>| wf_pairs(m) implies #[trigger] render(m)
                != s@ by {
                if render(m) == s@ {
                    assert(pairs_of(col.entries@) == m);
                }
            }
        }
        Err(StorageError::Parse)
    }
}

} // verus!
