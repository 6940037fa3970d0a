//! The nutrition label: a certificate rendered for a dataset card.
//!
//! A certificate is a document a machine verifies. A **label** is the same facts in the form a person
//! meets them. It is rendered from the signed certificate alone: no re-run, no dataset, nothing that
//! could describe a different verdict than the one that was signed. It states rather than implies
//! that a certificate is a statement of fact, not an endorsement, and whether the issuer was
//! verified.

use vstd::prelude::*;
use vstd::string::*;

use crate::assoc;
use crate::cat::{cat3, cat5, cat7, cat9, cat10};
use crate::certificate::document::{Certificate, CriterionResult, ReadinessReport};
use crate::certificate::render;
use crate::certificate::render::{char_text, list_counts, list_tags, narrowing_clauses, readiness_verdict, status_label};
use crate::certificate::signing::SignedCertificate;
use crate::engine;
use crate::lines;
use crate::lines::{count_bytes, extend, find_prefix, write_lines};
use crate::text;
use crate::text::{chars_of, dec_u64, dec_usize, join, text_of};

verus! {

broadcast use text::lemma_texts_push;

/// Whether a text is short, or has eight bytes at either end that are whole characters.
pub open spec fn can_abbreviate(s: Seq<char>) -> bool {
    lines::byte_len(s) <= 20 || (lines::prefix_of(s, 8, 0) is Some && lines::prefix_of(
        s,
        (lines::byte_len(s) - 8) as nat,
        0,
    ) is Some)
}

/// First and last eight bytes of a long text, so a label stays readable while still pinning enough of
/// the value to compare by eye.
pub open spec fn abbreviated(s: Seq<char>) -> Seq<char> {
    if lines::byte_len(s) <= 20 {
        s
    } else {
        match (lines::prefix_of(s, 8, 0), lines::prefix_of(s, (lines::byte_len(s) - 8) as nat, 0)) {
            (Some(a), Some(b)) => s.take(a) + "…"@ + s.skip(b),
            _ => s,
        }
    }
}

/// First and last eight bytes of a long text.
fn abbreviate(s: &str) -> (r: String)
    requires
        can_abbreviate(s@),
    ensures
        r@ == abbreviated(s@),
{
    let chars: Vec<char> = chars_of(s);
    let n: u128 = count_bytes(&chars);
    if n <= 20 {
        return String::from_str(s);
    }
    match (find_prefix(&chars, 8), find_prefix(&chars, n - 8)) {
        (Some(a), Some(b)) => {
            let head: String = text_of(&chars, 0, a);
            let tail: String = text_of(&chars, b, chars.len());
            assert(head@ =~= s@.take(a as int));
            assert(tail@ =~= s@.skip(b as int));
            cat3(head.as_str(), "…", tail.as_str())
        },
        _ => String::from_str(s),
    }
}

/// How many criteria were met.
pub open spec fn met(s: Seq<CriterionResult>) -> nat
    decreases s.len(),
{
    if s.len() == 0 {
        0
    } else {
        met(s.drop_last()) + (if s.last().passed { 1nat } else { 0 })
    }
}

/// How many criteria were met.
fn count_met(criteria: &Vec<CriterionResult>) -> (r: usize)
    ensures
        r as nat == met(criteria@),
{
    let mut n: usize = 0;
    let mut i: usize = 0;
    while i < criteria.len()
        invariant
            i <= criteria@.len(),
            n <= i,
            n as nat == met(criteria@.take(i as int)),
        decreases criteria@.len() - i,
    {
        assert(criteria@.take(i + 1).drop_last() =~= criteria@.take(i as int));
        if criteria[i].passed {
            n = n + 1;
        }
        i = i + 1;
    }
    assert(criteria@.take(i as int) =~= criteria@);
    n
}

/// The row for a readiness report.
pub open spec fn readiness_row(r: ReadinessReport) -> Seq<char> {
    "| Readiness (`"@ + r.profile@ + "`) | "@ + render::readiness_label(r) + " — "@ + text::dec(met(r.criteria@)) + " of "@
        + text::dec(r.criteria@.len()) + " criteria met |"@
}

/// The head of a label: the grade, and the table of what was checked.
pub open spec fn head_lines(c: Certificate) -> Seq<Seq<char>> {
    let t = c.trust_score;
    let n = c.findings_summary.by_severity;
    let p = c.provenance_coverage;
    seq![
        "## Veridex trust label"@,
        ""@,
        "**Grade "@ + seq![t.grade.spec_letter()] + " — "@ + text::dec(t.score as nat) + "/100** · data "@ + text::dec(
            t.data_score as nat,
        ) + " · provenance "@ + text::dec(t.provenance_pct as nat) + "% · "@ + render::status_text(c.status),
        ""@,
        "| | |"@,
        "| --- | --- |"@,
        "| Dataset | `"@ + c.dataset_id@ + "` |"@,
        "| Content hash | `"@ + abbreviated(c.cdm_content_hash@) + "` |"@,
        "| Findings | "@ + text::dec(n.error as nat) + " error · "@ + text::dec(n.warning as nat) + " warning · "@
            + text::dec(n.info as nat) + " info |"@,
        "| Provenance | "@ + text::dec(p.known as nat) + " known · "@ + text::dec(p.asserted as nat) + " attested · "@
            + text::dec(p.unknown as nat) + " unknown |"@,
    ]
}

/// The rows of a label that depend on what there is to say.
pub open spec fn optional_rows(c: Certificate) -> Seq<Seq<char>> {
    lines::line_if(
        c.findings_summary.by_category@.len() > 0,
        "| By family | "@ + text::joined(
            render::count_texts(assoc::pairs(c.findings_summary.by_category@)),
            " · "@,
        ) + " |"@,
    ) + lines::line_if(
        c.checks_errored@.len() > 0,
        "| Checks that failed to run | "@ + text::joined(text::texts(c.checks_errored@), ", "@) + " |"@,
    ) + lines::line_if(
        c.categories_skipped@.len() > 0,
        "| Families not run | "@ + text::joined(engine::tags(c.categories_skipped@), ", "@) + " |"@,
    ) + (match c.attestation {
        Some(a) => seq![
            "| Attested | "@ + text::joined(text::texts(a.keys@), ", "@) + " — by producer key `"@ + abbreviated(
                a.producer_key@,
            ) + "` |"@,
        ],
        None => Seq::empty(),
    }) + (match c.readiness {
        Some(r) => seq![readiness_row(r)],
        None => Seq::empty(),
    })
}

/// The end of a label: who checked and issued, what qualifies the numbers, and what a certificate is.
pub open spec fn foot_lines(c: Certificate, issuer_verified: bool) -> Seq<Seq<char>> {
    let narrowed = render::narrowing(c.effective_config@);
    seq![
        "| Checked by | veridex "@ + c.veridex_version@ + " · rubric "@ + c.trust_score.rubric_version@ + " |"@,
        "| Issued | "@ + c.issuance.timestamp@ + " by key `"@ + abbreviated(c.issuance.key_id@) + "` |"@,
        ""@,
    ] + (if narrowed.len() > 0 {
        seq![
            "> **Narrowed run.** This score was earned within a reduced selection, not over the full catalog at its default thresholds ("@
                + text::joined(narrowed, "; "@) + ")."@,
            ""@,
        ]
    } else {
        Seq::empty()
    }) + (if issuer_verified {
        Seq::empty()
    } else {
        seq![
            "> **Issuer not verified.** This certificate is internally consistent, but nothing here establishes who issued it. Verify it against a trusted public key before relying on it."@,
            ""@,
        ]
    }) + seq![
        "Verify offline: `veridex verify <dataset> --certificate <certificate.json> --key <issuer.pub>`"@,
        ""@,
        "*A Veridex certificate records what was checked and what was found. It is a statement of fact about a specific dataset, not an endorsement of it.*"@,
    ]
}

/// A label, line by line.
pub open spec fn label_lines(c: Certificate, issuer_verified: bool) -> Seq<Seq<char>> {
    head_lines(c) + optional_rows(c) + foot_lines(c, issuer_verified)
}

/// Whether what a label abbreviates can be.
pub open spec fn is_presentable(c: Certificate) -> bool {
    &&& can_abbreviate(c.cdm_content_hash@)
    &&& can_abbreviate(c.issuance.key_id@)
    &&& match c.attestation {
        Some(a) => can_abbreviate(a.producer_key@),
        None => true,
    }
}

/// The head of a label.
fn list_head(c: &Certificate) -> (r: Vec<String>)
    requires
        is_presentable(*c),
    ensures
        text::texts(r@) == head_lines(*c),
{
    let ghost all = head_lines(*c);
    let mut out: Vec<String> = Vec::new();
    assert(text::texts(out@) =~= Seq::empty());
    out.push(String::from_str("## Veridex trust label"));
    out.push(String::from_str(""));
    out.push(
        cat10(
            "**Grade ",
            char_text(c.trust_score.grade.letter()).as_str(),
            " — ",
            dec_u64(c.trust_score.score as u64).as_str(),
            "/100** · data ",
            dec_u64(c.trust_score.data_score as u64).as_str(),
            " · provenance ",
            dec_u64(c.trust_score.provenance_pct as u64).as_str(),
            "% · ",
            status_label(c.status),
        ),
    );
    out.push(String::from_str(""));
    out.push(String::from_str("| | |"));
    out.push(String::from_str("| --- | --- |"));
    out.push(cat3("| Dataset | `", c.dataset_id.as_str(), "` |"));
    out.push(cat3("| Content hash | `", abbreviate(c.cdm_content_hash.as_str()).as_str(), "` |"));
    out.push(
        cat7(
            "| Findings | ",
            dec_u64(c.findings_summary.by_severity.error).as_str(),
            " error · ",
            dec_u64(c.findings_summary.by_severity.warning).as_str(),
            " warning · ",
            dec_u64(c.findings_summary.by_severity.info).as_str(),
            " info |",
        ),
    );
    out.push(
        cat7(
            "| Provenance | ",
            dec_u64(c.provenance_coverage.known as u64).as_str(),
            " known · ",
            dec_u64(c.provenance_coverage.asserted as u64).as_str(),
            " attested · ",
            dec_u64(c.provenance_coverage.unknown as u64).as_str(),
            " unknown |",
        ),
    );
    assert(text::texts(out@) =~= all);
    out
}

/// The rows of a label that depend on what there is to say.
fn list_optional(c: &Certificate) -> (r: Vec<String>)
    requires
        is_presentable(*c),
    ensures
        text::texts(r@) == optional_rows(*c),
{
    let ghost all = optional_rows(*c);
    let mut out: Vec<String> = Vec::new();
    assert(text::texts(out@) =~= Seq::empty());
    if c.findings_summary.by_category.len() > 0 {
        let families: Vec<String> = list_counts(&c.findings_summary.by_category);
        out.push(cat3("| By family | ", join(&families, " · ").as_str(), " |"));
    }
    if c.checks_errored.len() > 0 {
        out.push(cat3("| Checks that failed to run | ", join(&c.checks_errored, ", ").as_str(), " |"));
    }
    if c.categories_skipped.len() > 0 {
        out.push(cat3("| Families not run | ", join(&list_tags(&c.categories_skipped), ", ").as_str(), " |"));
    }
    if let Some(a) = &c.attestation {
        out.push(
            cat5(
                "| Attested | ",
                join(&a.keys, ", ").as_str(),
                " — by producer key `",
                abbreviate(a.producer_key.as_str()).as_str(),
                "` |",
            ),
        );
    }
    if let Some(r) = &c.readiness {
        out.push(
            cat9(
                "| Readiness (`",
                r.profile.as_str(),
                "`) | ",
                readiness_verdict(r),
                " — ",
                dec_usize(count_met(&r.criteria)).as_str(),
                " of ",
                dec_usize(r.criteria.len()).as_str(),
                " criteria met |",
            ),
        );
    }
    assert(text::texts(out@) =~= all);
    out
}

/// The end of a label.
fn list_foot(c: &Certificate, issuer_verified: bool) -> (r: Vec<String>)
    requires
        is_presentable(*c),
    ensures
        text::texts(r@) == foot_lines(*c, issuer_verified),
{
    let ghost all = foot_lines(*c, issuer_verified);
    let mut out: Vec<String> = Vec::new();
    assert(text::texts(out@) =~= Seq::empty());
    out.push(
        cat5(
            "| Checked by | veridex ",
            c.veridex_version.as_str(),
            " · rubric ",
            c.trust_score.rubric_version.as_str(),
            " |",
        ),
    );
    out.push(
        cat5(
            "| Issued | ",
            c.issuance.timestamp.as_str(),
            " by key `",
            abbreviate(c.issuance.key_id.as_str()).as_str(),
            "` |",
        ),
    );
    out.push(String::from_str(""));
    let narrowed: Vec<String> = narrowing_clauses(&c.effective_config);
    assert(text::texts(narrowed@).len() == narrowed@.len());
    if narrowed.len() > 0 {
        out.push(
            cat3(
                "> **Narrowed run.** This score was earned within a reduced selection, not over the full catalog at its default thresholds (",
                join(&narrowed, "; ").as_str(),
                ").",
            ),
        );
        out.push(String::from_str(""));
    }
    if !issuer_verified {
        out.push(
            String::from_str(
                "> **Issuer not verified.** This certificate is internally consistent, but nothing here establishes who issued it. Verify it against a trusted public key before relying on it.",
            ),
        );
        out.push(String::from_str(""));
    }
    out.push(
        String::from_str("Verify offline: `veridex verify <dataset> --certificate <certificate.json> --key <issuer.pub>`"),
    );
    out.push(String::from_str(""));
    out.push(
        String::from_str(
            "*A Veridex certificate records what was checked and what was found. It is a statement of fact about a specific dataset, not an endorsement of it.*",
        ),
    );
    assert(text::texts(out@) =~= all);
    out
}

/// Render a signed certificate as a Markdown nutrition label.
///
/// `issuer_verified` is the caller's trust decision, carried into the text: a label produced without a
/// trusted issuer key says so, because that caveat has to survive being pasted somewhere else.
pub fn render_label(signed: &SignedCertificate, issuer_verified: bool) -> (r: String)
    requires
        is_presentable(signed.certificate),
    ensures
        r@ == lines::written(label_lines(signed.certificate, issuer_verified)),
{
    let mut out: Vec<String> = list_head(&signed.certificate);
    extend(&mut out, list_optional(&signed.certificate));
    extend(&mut out, list_foot(&signed.certificate, issuer_verified));
    write_lines(&out)
}

/// A text of one byte a character, as hexadecimal is, can be abbreviated.
pub proof fn law_hexadecimal_can_be_abbreviated(s: Seq<char>)
    requires
        forall|i: int| 0 <= i < s.len() ==> (#[trigger] s[i]) as u32 <= 127,
    ensures
        can_abbreviate(s),
        s.len() > 20 ==> abbreviated(s) == s.take(8) + "…"@ + s.skip(s.len() - 8),
{
    lemma_one_byte_each(s);
    assert(s.take(s.len() as int) =~= s);
    if s.len() > 20 {
        lemma_prefix(s, 8, 0);
        lemma_prefix(s, (s.len() - 8) as nat, 0);
    }
}

/// Where each character takes one byte, the length is the number of characters.
proof fn lemma_one_byte_each(s: Seq<char>)
    requires
        forall|i: int| 0 <= i < s.len() ==> (#[trigger] s[i]) as u32 <= 127,
    ensures
        lines::byte_len(s) == s.len(),
    decreases s.len(),
{
    if s.len() > 0 {
        let rest = s.drop_last();
        assert forall|i: int| 0 <= i < rest.len() implies (#[trigger] rest[i]) as u32 <= 127 by {
            assert(rest[i] == s[i]);
        }
        lemma_one_byte_each(rest);
        assert(s[s.len() - 1] as u32 <= 127);
    }
}

/// Where each character takes one byte, a prefix of some bytes is one of as many characters.
proof fn lemma_prefix(s: Seq<char>, n: nat, from: int)
    requires
        forall|i: int| 0 <= i < s.len() ==> (#[trigger] s[i]) as u32 <= 127,
        0 <= from <= n <= s.len(),
    ensures
        lines::prefix_of(s, n, from) == Some(n as int),
    decreases n - from,
{
    let p = s.take(from);
    assert forall|i: int| 0 <= i < p.len() implies (#[trigger] p[i]) as u32 <= 127 by {
        assert(p[i] == s[i]);
    }
    lemma_one_byte_each(p);
    if from < n {
        lemma_prefix(s, n, from + 1);
    }
}

} // verus!
