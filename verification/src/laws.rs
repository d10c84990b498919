//! Laws of the grammar, stated over the spec parser.

use vstd::prelude::*;

use crate::literal::is_digit;
use crate::literal::is_exp_marker;
use crate::literal::is_literal;
use crate::literal::lemma_lit_in_context;
use crate::literal::lemma_literal_nonempty;
use crate::literal::CH_CARET;
use crate::literal::CH_DOT;
use crate::literal::CH_MINUS;
use crate::literal::CH_PLUS;
use crate::literal::CH_SLASH;
use crate::literal::CH_STAR;
use crate::parse::is_equation_op_char;
use crate::parse::is_term_op_char;
use crate::parse::spec_degree;
use crate::parse::spec_equation;
use crate::parse::spec_equation_rest;
use crate::parse::spec_exponent;
use crate::parse::spec_term;
use crate::parse::spec_term_rest;
use crate::parse::ParseOutcome;

verus! {

/// An operator character of the grammar: `+ - * / ^`.
pub open spec fn is_op_char(c: u8) -> bool {
    c == CH_PLUS || c == CH_MINUS || c == CH_STAR || c == CH_SLASH || c == CH_CARET
}

/// `s` is a chain of numeric literals joined by single operator characters:
/// `lit_0 op_0 lit_1 op_1 ... lit_{n-1}`, where literal `i` occupies
/// `s[los[i]..his[i]]` and operator `i` is the character at `his[i]`.
pub open spec fn chain_split(s: Seq<u8>, los: Seq<int>, his: Seq<int>) -> bool {
    let n = los.len();
    &&& his.len() == n
    &&& n >= 1
    &&& los[0] == 0
    &&& his[n - 1] == s.len()
    &&& forall|i: int| 0 <= i < n ==> 0 <= #[trigger] los[i] <= #[trigger] his[i] <= s.len()
    &&& forall|i: int| 0 <= i < n - 1 ==> #[trigger] los[i + 1] == his[i] + 1
    &&& forall|i: int| 0 <= i < n ==> is_literal(#[trigger] s.subrange(los[i], his[i]))
    &&& forall|i: int| 0 <= i < n - 1 ==> is_op_char(#[trigger] s[his[i]])
}

/// The index of the last literal in the maximal `^`-joined run of literals
/// that starts at literal `i`.
pub open spec fn caret_run_end(s: Seq<u8>, his: Seq<int>, i: int) -> int
    decreases his.len() - i,
{
    if 0 <= i && i < his.len() - 1 && 0 <= his[i] < s.len() && s[his[i]] == CH_CARET {
        caret_run_end(s, his, i + 1)
    } else {
        i
    }
}

/// The index of the last literal in the maximal `*`/`/`/`^`-joined run of
/// literals that starts at literal `i`: the run stops only at an additive
/// operator or at the end.
pub open spec fn term_run_end(s: Seq<u8>, his: Seq<int>, i: int) -> int
    decreases his.len() - i,
{
    if 0 <= i && i < his.len() - 1 && 0 <= his[i] < s.len() && !is_equation_op_char(s[his[i]]) {
        term_run_end(s, his, i + 1)
    } else {
        i
    }
}

proof fn lemma_caret_run_props(s: Seq<u8>, his: Seq<int>, i: int)
    requires
        0 <= i < his.len(),
    ensures
        i <= caret_run_end(s, his, i) <= his.len() - 1,
        caret_run_end(s, his, i) == his.len() - 1 || !(0 <= his[caret_run_end(s, his, i)] < s.len()
            && s[his[caret_run_end(s, his, i)]] == CH_CARET),
        forall|k: int|
            i <= k < caret_run_end(s, his, i) ==> 0 <= his[k] < s.len() && s[his[k]] == CH_CARET,
    decreases his.len() - i,
{
    if 0 <= i && i < his.len() - 1 && 0 <= his[i] < s.len() && s[his[i]] == CH_CARET {
        lemma_caret_run_props(s, his, i + 1);
    }
}

proof fn lemma_term_run_props(s: Seq<u8>, his: Seq<int>, i: int)
    requires
        0 <= i < his.len(),
    ensures
        i <= term_run_end(s, his, i) <= his.len() - 1,
        term_run_end(s, his, i) == his.len() - 1 || !(0 <= his[term_run_end(s, his, i)] < s.len()
            && !is_equation_op_char(s[his[term_run_end(s, his, i)]])),
    decreases his.len() - i,
{
    if 0 <= i && i < his.len() - 1 && 0 <= his[i] < s.len() && !is_equation_op_char(s[his[i]]) {
        lemma_term_run_props(s, his, i + 1);
    }
}

/// `term_run_end` is the same from every literal of one run of non-additive
/// operators.
proof fn lemma_term_run_skip(s: Seq<u8>, his: Seq<int>, i: int, j: int)
    requires
        0 <= i <= j < his.len(),
        forall|k: int| i <= k < j ==> 0 <= his[k] < s.len() && !is_equation_op_char(s[his[k]]),
    ensures
        term_run_end(s, his, i) == term_run_end(s, his, j),
    decreases j - i,
{
    if i < j {
        lemma_term_run_skip(s, his, i + 1, j);
    }
}

/// Every operator position of a chain but the last lies strictly inside `s`,
/// and literal ends grow with the index.
proof fn lemma_chain_bounds(s: Seq<u8>, los: Seq<int>, his: Seq<int>, i: int, j: int)
    requires
        chain_split(s, los, his),
        0 <= i <= j < los.len(),
    ensures
        his[i] <= his[j],
        i < los.len() - 1 ==> his[i] < s.len(),
        los[i] < his[i],
    decreases j - i,
{
    lemma_literal_nonempty(s.subrange(los[i], his[i]));
    if i < los.len() - 1 {
        lemma_literal_nonempty(s.subrange(los[i + 1], his[i + 1]));
    }
    if i < j {
        lemma_chain_bounds(s, los, his, i + 1, j);
    }
}

/// A degree parse that starts at literal `i` of a chain succeeds and consumes
/// exactly the maximal `^`-joined run of literals that starts there.
proof fn lemma_degree_chain(s: Seq<u8>, los: Seq<int>, his: Seq<int>, i: int)
    requires
        chain_split(s, los, his),
        0 <= i < los.len(),
    ensures
        spec_degree(s, los[i]) == (ParseOutcome::Done { end: his[caret_run_end(s, his, i)] }),
    decreases los.len() - i,
{
    let n = los.len();
    lemma_chain_bounds(s, los, his, i, i);
    if i < n - 1 {
        assert(is_op_char(s[his[i]]));
        assert(!is_digit(s[his[i]]) && s[his[i]] != CH_DOT && !is_exp_marker(s[his[i]]));
    }
    lemma_lit_in_context(s, los[i], his[i]);
    if i < n - 1 && s[his[i]] == CH_CARET {
        lemma_degree_chain(s, los, his, i + 1);
        assert(spec_exponent(s, los[i]) == (ParseOutcome::Done {
            end: his[caret_run_end(s, his, i + 1)],
        }));
        assert(caret_run_end(s, his, i) == caret_run_end(s, his, i + 1));
    } else {
        assert(spec_exponent(s, los[i]) is Missed);
        assert(spec_degree(s, los[i]) == (ParseOutcome::Done { end: his[i] }));
        assert(caret_run_end(s, his, i) == i);
    }
}

/// The `*`/`/` tail of a term that continues at the operator after literal
/// `i` — the end of a `^`-run — consumes up to the end of the maximal
/// non-additive run.
proof fn lemma_term_chain(s: Seq<u8>, los: Seq<int>, his: Seq<int>, i: int)
    requires
        chain_split(s, los, his),
        0 <= i < los.len(),
        i == los.len() - 1 || s[his[i]] != CH_CARET,
    ensures
        spec_term_rest(s, his[i]) == (ParseOutcome::Done { end: his[term_run_end(s, his, i)] }),
    decreases los.len() - i,
{
    let n = los.len();
    lemma_chain_bounds(s, los, his, i, i);
    if i < n - 1 && is_term_op_char(s[his[i]]) {
        lemma_degree_chain(s, los, his, i + 1);
        let j = caret_run_end(s, his, i + 1);
        lemma_caret_run_props(s, his, i + 1);
        lemma_chain_bounds(s, los, his, i + 1, j);
        assert(spec_degree(s, his[i] + 1) == (ParseOutcome::Done { end: his[j] }));
        assert(los[i + 1] == his[i] + 1);
        assert(los[i + 1] < his[i + 1]);
        assert(his[i + 1] <= his[j]);
        assert(0 <= los[j] <= his[j] <= s.len());
        assert(his[i] + 1 <= his[j] <= s.len());
        lemma_chain_bounds(s, los, his, j, j);
        if j < n - 1 {
            assert(0 <= his[j] < s.len());
            assert(is_op_char(s[his[j]]));
            assert(s[his[j]] != CH_CARET);
        }
        lemma_term_chain(s, los, his, j);
        assert(spec_term_rest(s, his[i]) == spec_term_rest(s, his[j]));
        assert forall|k: int| i <= k < j implies 0 <= his[k] < s.len() && !is_equation_op_char(
            s[his[k]],
        ) by {
            lemma_chain_bounds(s, los, his, k, k);
        }
        lemma_term_run_skip(s, his, i, j);
    } else {
        assert(spec_term_rest(s, his[i]) == (ParseOutcome::Done { end: his[i] }));
        if i < n - 1 {
            assert(is_op_char(s[his[i]]));
            assert(is_equation_op_char(s[his[i]]));
        }
        assert(term_run_end(s, his, i) == i);
    }
}

/// The `+`/`-` tail of an equation that continues at the operator after
/// literal `i` — the end of a non-additive run — consumes the whole rest of
/// the chain.
proof fn lemma_equation_chain(s: Seq<u8>, los: Seq<int>, his: Seq<int>, i: int)
    requires
        chain_split(s, los, his),
        0 <= i < los.len(),
        i == los.len() - 1 || is_equation_op_char(s[his[i]]),
    ensures
        spec_equation_rest(s, his[i]) == (ParseOutcome::Done { end: s.len() as int }),
    decreases los.len() - i,
{
    let n = los.len();
    lemma_chain_bounds(s, los, his, i, i);
    if i == n - 1 {
        assert(spec_equation_rest(s, his[i]) == (ParseOutcome::Done { end: his[i] }));
    } else {
        lemma_degree_chain(s, los, his, i + 1);
        let j = caret_run_end(s, his, i + 1);
        lemma_caret_run_props(s, his, i + 1);
        lemma_chain_bounds(s, los, his, i + 1, j);
        assert(spec_degree(s, his[i] + 1) == (ParseOutcome::Done { end: his[j] }));
        assert(los[i + 1] == his[i] + 1);
        assert(los[i + 1] < his[i + 1]);
        assert(his[i + 1] <= his[j]);
        lemma_chain_bounds(s, los, his, j, j);
        if j < n - 1 {
            assert(0 <= his[j] < s.len());
            assert(is_op_char(s[his[j]]));
            assert(s[his[j]] != CH_CARET);
        }
        lemma_term_chain(s, los, his, j);
        let m = term_run_end(s, his, j);
        lemma_term_run_props(s, his, j);
        lemma_chain_bounds(s, los, his, j, m);
        lemma_chain_bounds(s, los, his, m, m);
        if m < n - 1 {
            assert(0 <= his[m] < s.len());
            assert(is_equation_op_char(s[his[m]]));
        }
        assert(spec_term(s, his[i] + 1) == (ParseOutcome::Done { end: his[m] }));
        assert(his[m] > his[i] + 1);
        lemma_equation_chain(s, los, his, m);
        assert(spec_equation_rest(s, his[i]) == spec_equation_rest(s, his[m]));
    }
}

/// Any string built by joining numeric literals with single operator
/// characters out of `+ - * / ^` — a literal, then alternating operator and
/// literal — parses as an equation that consumes the entire string, with not
/// one character left over. The split of the string into its literals and
/// operators is handed in as the index sequences `los` and `his`.
pub proof fn lemma_chain_parse_consumes_all(s: Seq<u8>, los: Seq<int>, his: Seq<int>)
    requires
        chain_split(s, los, his),
    ensures
        spec_equation(s, 0) == (ParseOutcome::Done { end: s.len() as int }),
{
    let n = los.len();
    lemma_degree_chain(s, los, his, 0);
    let j = caret_run_end(s, his, 0);
    lemma_caret_run_props(s, his, 0);
    lemma_chain_bounds(s, los, his, 0, j);
    lemma_chain_bounds(s, los, his, j, j);
    if j < n - 1 {
        assert(0 <= his[j] < s.len());
        assert(is_op_char(s[his[j]]));
        assert(s[his[j]] != CH_CARET);
    }
    lemma_term_chain(s, los, his, j);
    let m = term_run_end(s, his, j);
    lemma_term_run_props(s, his, j);
    lemma_chain_bounds(s, los, his, j, m);
    lemma_chain_bounds(s, los, his, m, m);
    if m < n - 1 {
        assert(0 <= his[m] < s.len());
        assert(is_equation_op_char(s[his[m]]));
    }
    assert(spec_term(s, 0) == (ParseOutcome::Done { end: his[m] }));
    assert(his[m] > 0);
    lemma_equation_chain(s, los, his, m);
}

} // verus!
