//! DECLARE constraints: the per-trace rules table from which the
//! constraints of a log are discovered.

use vstd::prelude::*;
use crate::event_log::{EventLog, TraceView, trace_names, trace_activity_names};
use crate::text::{concat, str_eq, distinct_in_order, distinct_names, lemma_distinct_in_order, split_on, split_str};

verus! {

/// The DECLARE constraint templates.
#[derive(Clone, Copy, Debug, Hash, PartialEq, Eq, Structural)]
pub enum DeclareTemplate {
    Existence,
    ExactlyOne,
    Init,
    RespondedExistence,
    Response,
    Precedence,
    Succession,
    AltResponse,
    AltPrecedence,
    AltSuccession,
    ChainResponse,
    ChainPrecedence,
    ChainSuccession,
    Absence,
    CoExistence,
    NonCoexistence,
    NonSuccession,
    NonChainSuccession,
}

/// The name of a template, as it appears in rule keys.
pub open spec fn template_name(t: DeclareTemplate) -> Seq<char> {
    match t {
        DeclareTemplate::Existence => "existence"@,
        DeclareTemplate::ExactlyOne => "exactly_one"@,
        DeclareTemplate::Init => "init"@,
        DeclareTemplate::RespondedExistence => "responded_existence"@,
        DeclareTemplate::Response => "response"@,
        DeclareTemplate::Precedence => "precedence"@,
        DeclareTemplate::Succession => "succession"@,
        DeclareTemplate::AltResponse => "altresponse"@,
        DeclareTemplate::AltPrecedence => "altprecedence"@,
        DeclareTemplate::AltSuccession => "altsuccession"@,
        DeclareTemplate::ChainResponse => "chainresponse"@,
        DeclareTemplate::ChainPrecedence => "chainprecedence"@,
        DeclareTemplate::ChainSuccession => "chainsuccession"@,
        DeclareTemplate::Absence => "absence"@,
        DeclareTemplate::CoExistence => "coexistence"@,
        DeclareTemplate::NonCoexistence => "noncoexistence"@,
        DeclareTemplate::NonSuccession => "nonsuccession"@,
        DeclareTemplate::NonChainSuccession => "nonchainsuccession"@,
    }
}

impl DeclareTemplate {
    /// The name of the template.
    pub fn as_str(&self) -> (res: &'static str)
        ensures
            res@ == template_name(*self),
    {
        match self {
            DeclareTemplate::Existence => "existence",
            DeclareTemplate::ExactlyOne => "exactly_one",
            DeclareTemplate::Init => "init",
            DeclareTemplate::RespondedExistence => "responded_existence",
            DeclareTemplate::Response => "response",
            DeclareTemplate::Precedence => "precedence",
            DeclareTemplate::Succession => "succession",
            DeclareTemplate::AltResponse => "altresponse",
            DeclareTemplate::AltPrecedence => "altprecedence",
            DeclareTemplate::AltSuccession => "altsuccession",
            DeclareTemplate::ChainResponse => "chainresponse",
            DeclareTemplate::ChainPrecedence => "chainprecedence",
            DeclareTemplate::ChainSuccession => "chainsuccession",
            DeclareTemplate::Absence => "absence",
            DeclareTemplate::CoExistence => "coexistence",
            DeclareTemplate::NonCoexistence => "noncoexistence",
            DeclareTemplate::NonSuccession => "nonsuccession",
            DeclareTemplate::NonChainSuccession => "nonchainsuccession",
        }
    }
}

/// A discovered rule: `support` traces activated it, `confidence` of them
/// satisfied it.
#[derive(Clone, Copy, Debug, PartialEq, Eq, Structural)]
pub struct DeclareRule {
    pub support: usize,
    pub confidence: usize,
}

/// A DECLARE model: for each template name, its rules keyed by activity
/// (`a`) or activity pair (`a|b`).
#[derive(Debug)]
pub struct DeclareModel {
    pub rules: Vec<(String, Vec<(String, DeclareRule)>)>,
}

/// `x` occurs exactly once in `t`.
pub open spec fn exactly_once(t: Seq<Seq<char>>, x: Seq<char>) -> bool {
    exists|i: int| 0 <= i < t.len() && t[i] == x && forall|j: int| 0 <= j < t.len() && #[trigger] t[j] == x ==> j == i
}

/// Every `a` comes before every `b` (the last `a` before the first `b`).
pub open spec fn all_before(t: Seq<Seq<char>>, a: Seq<char>, b: Seq<char>) -> bool {
    forall|i: int, j: int| 0 <= i < t.len() && 0 <= j < t.len() && t[i] == a && t[j] == b ==> i < j
}

/// Some `a` comes before every `b` (the first `a` before the first `b`).
pub open spec fn first_before(t: Seq<Seq<char>>, a: Seq<char>, b: Seq<char>) -> bool {
    exists|i: int| 0 <= i < t.len() && t[i] == a && forall|j: int| 0 <= j < t.len() && #[trigger] t[j] == b ==> i < j
}

/// After the `a` at `i` comes a `b` before the next `a`.
pub open spec fn answered(t: Seq<Seq<char>>, i: int, a: Seq<char>, b: Seq<char>) -> bool {
    exists|k: int| i < k < t.len() && t[k] == b && forall|m: int| i < m < k ==> #[trigger] t[m] != a
}

/// Alternate response: every `a` is followed by a `b` before the next `a`.
pub open spec fn alt_response(t: Seq<Seq<char>>, a: Seq<char>, b: Seq<char>) -> bool {
    forall|i: int| 0 <= i < t.len() && #[trigger] t[i] == a ==> answered(t, i, a, b)
}

/// Chain response: every `a` is directly followed by `b`.
pub open spec fn chain_response(t: Seq<Seq<char>>, a: Seq<char>, b: Seq<char>) -> bool {
    forall|i: int| 0 <= i < t.len() && #[trigger] t[i] == a ==> i + 1 < t.len() && t[i + 1] == b
}

/// Before the `b` at `j` comes an `a` after the previous `b`.
pub open spec fn announced(t: Seq<Seq<char>>, j: int, a: Seq<char>, b: Seq<char>) -> bool {
    exists|k: int| 0 <= k < j && t[k] == a && forall|m: int| k < m < j ==> #[trigger] t[m] != b
}

/// Alternate precedence: every `b` is preceded by an `a` after the previous `b`.
pub open spec fn alt_precedence(t: Seq<Seq<char>>, a: Seq<char>, b: Seq<char>) -> bool {
    forall|j: int| 0 <= j < t.len() && #[trigger] t[j] == b ==> announced(t, j, a, b)
}

/// Chain precedence: every `b` is directly preceded by `a`.
pub open spec fn chain_precedence(t: Seq<Seq<char>>, a: Seq<char>, b: Seq<char>) -> bool {
    forall|j: int| 0 <= j < t.len() && #[trigger] t[j] == b ==> j > 0 && t[j - 1] == a
}

fn holds(t: &Vec<String>, i: usize, x: &str) -> (res: bool)
    requires
        i < t@.len(),
    ensures
        res == (t.deep_view()[i as int] == x@),
{
    str_eq(t[i].as_str(), x)
}

fn occurs_in(t: &Vec<String>, x: &str) -> (res: bool)
    ensures
        res == t.deep_view().contains(x@),
{
    for i in 0..t.len()
        invariant
            forall|j: int| 0 <= j < i ==> t.deep_view()[j] != x@,
    {
        if holds(t, i, x) {
            return true;
        }
    }
    false
}

fn exactly_once_in(t: &Vec<String>, x: &str) -> (res: bool)
    ensures
        res == exactly_once(t.deep_view(), x@),
{
    let ghost tv = t.deep_view();
    let mut found: Option<usize> = None;
    for i in 0..t.len()
        invariant
            tv == t.deep_view(),
            found is None ==> forall|j: int| 0 <= j < i ==> tv[j] != x@,
            found matches Some(f) ==> f < i && tv[f as int] == x@ && forall|j: int| 0 <= j < i && tv[j] == x@ ==> j == f,
    {
        if holds(t, i, x) {
            if found.is_some() {
                proof {
                    let f = found.unwrap() as int;
                    assert forall|w: int| 0 <= w < tv.len() && tv[w] == x@ implies !(forall|j: int|
                        0 <= j < tv.len() && #[trigger] tv[j] == x@ ==> j == w) by {
                        if w == i {
                            assert(tv[f] == x@);
                        } else {
                            assert(tv[i as int] == x@);
                        }
                    }
                }
                return false;
            }
            found = Some(i);
        }
    }
    match found {
        Some(f) => {
            proof {
                assert(tv[f as int] == x@);
            }
            true
        },
        None => false,
    }
}

fn all_before_in(t: &Vec<String>, a: &str, b: &str) -> (res: bool)
    requires
        a@ != b@,
    ensures
        res == all_before(t.deep_view(), a@, b@),
{
    let ghost tv = t.deep_view();
    let mut seen_b = false;
    for i in 0..t.len()
        invariant
            tv == t.deep_view(),
            a@ != b@,
            seen_b == exists|j: int| 0 <= j < i && tv[j] == b@,
            forall|i2: int, j: int| 0 <= j <= i2 < i && tv[i2] == a@ ==> tv[j] != b@,
    {
        if holds(t, i, b) {
            seen_b = true;
        } else if holds(t, i, a) && seen_b {
            return false;
        }
    }
    true
}

fn first_before_in(t: &Vec<String>, a: &str, b: &str) -> (res: bool)
    requires
        a@ != b@,
    ensures
        res == first_before(t.deep_view(), a@, b@),
{
    let ghost tv = t.deep_view();
    for i in 0..t.len()
        invariant
            tv == t.deep_view(),
            a@ != b@,
            forall|j: int| 0 <= j < i ==> tv[j] != a@ && tv[j] != b@,
    {
        if holds(t, i, a) {
            return true;
        }
        if holds(t, i, b) {
            proof {
                assert forall|w: int| 0 <= w < tv.len() && tv[w] == a@ implies !(forall|j: int|
                    0 <= j < tv.len() && #[trigger] tv[j] == b@ ==> w < j) by {
                    assert(tv[i as int] == b@);
                }
            }
            return false;
        }
    }
    false
}

/// Whether the `a` at `i` is answered by a `b` before the next `a`.
fn answered_at(t: &Vec<String>, i: usize, a: &str, b: &str) -> (res: bool)
    requires
        i < t@.len(),
        a@ != b@,
    ensures
        res == answered(t.deep_view(), i as int, a@, b@),
{
    let ghost tv = t.deep_view();
    let n: usize = t.len();
    let mut k: usize = i + 1;
    while k < t.len()
        invariant
            tv == t.deep_view(),
            i < k <= tv.len(),
            forall|m: int| i < m < k ==> #[trigger] tv[m] != a@ && tv[m] != b@,
        decreases t.len() - k,
    {
        if holds(t, k, b) {
            return true;
        }
        if holds(t, k, a) {
            proof {
                assert forall|w: int| i < w < tv.len() && tv[w] == b@ implies !(forall|m: int|
                    i < m < w ==> #[trigger] tv[m] != a@) by {
                    assert(tv[k as int] == a@);
                }
            }
            return false;
        }
        k = k + 1;
    }
    false
}

fn alt_response_in(t: &Vec<String>, a: &str, b: &str) -> (res: bool)
    requires
        a@ != b@,
    ensures
        res == alt_response(t.deep_view(), a@, b@),
{
    let ghost tv = t.deep_view();
    for i in 0..t.len()
        invariant
            tv == t.deep_view(),
            a@ != b@,
            forall|j: int| 0 <= j < i && #[trigger] tv[j] == a@ ==> answered(tv, j, a@, b@),
    {
        if holds(t, i, a) && !answered_at(t, i, a, b) {
            return false;
        }
    }
    true
}

fn chain_response_in(t: &Vec<String>, a: &str, b: &str) -> (res: bool)
    ensures
        res == chain_response(t.deep_view(), a@, b@),
{
    let ghost tv = t.deep_view();
    for i in 0..t.len()
        invariant
            tv == t.deep_view(),
            forall|j: int| 0 <= j < i && #[trigger] tv[j] == a@ ==> j + 1 < tv.len() && tv[j + 1] == b@,
    {
        if holds(t, i, a) {
            if i + 1 >= t.len() || !holds(t, i + 1, b) {
                return false;
            }
        }
    }
    true
}

/// Whether the `b` at `j` is announced by an `a` after the previous `b`.
fn announced_at(t: &Vec<String>, j: usize, a: &str, b: &str) -> (res: bool)
    requires
        j < t@.len(),
        a@ != b@,
    ensures
        res == announced(t.deep_view(), j as int, a@, b@),
{
    let ghost tv = t.deep_view();
    let mut k: usize = j;
    while k > 0
        invariant
            tv == t.deep_view(),
            k <= j < tv.len(),
            forall|m: int| k <= m < j ==> #[trigger] tv[m] != a@ && tv[m] != b@,
        decreases k,
    {
        k = k - 1;
        if holds(t, k, a) {
            return true;
        }
        if holds(t, k, b) {
            proof {
                assert forall|w: int| 0 <= w < j && tv[w] == a@ implies !(forall|m: int|
                    w < m < j ==> #[trigger] tv[m] != b@) by {
                    assert(tv[k as int] == b@);
                }
            }
            return false;
        }
    }
    false
}

fn alt_precedence_in(t: &Vec<String>, a: &str, b: &str) -> (res: bool)
    requires
        a@ != b@,
    ensures
        res == alt_precedence(t.deep_view(), a@, b@),
{
    let ghost tv = t.deep_view();
    for j in 0..t.len()
        invariant
            tv == t.deep_view(),
            a@ != b@,
            forall|i: int| 0 <= i < j && #[trigger] tv[i] == b@ ==> announced(tv, i, a@, b@),
    {
        if holds(t, j, b) && !announced_at(t, j, a, b) {
            return false;
        }
    }
    true
}

fn chain_precedence_in(t: &Vec<String>, a: &str, b: &str) -> (res: bool)
    ensures
        res == chain_precedence(t.deep_view(), a@, b@),
{
    let ghost tv = t.deep_view();
    for j in 0..t.len()
        invariant
            tv == t.deep_view(),
            forall|i: int| 0 <= i < j && #[trigger] tv[i] == b@ ==> i > 0 && tv[i - 1] == a@,
    {
        if holds(t, j, b) {
            if j == 0 || !holds(t, j - 1, a) {
                return false;
            }
        }
    }
    true
}

/// The templates with one activity in their rule key.
pub open spec fn is_unary(tm: DeclareTemplate) -> bool {
    tm is Existence || tm is ExactlyOne || tm is Init
}

/// The templates with two activities in their rule key that the table holds.
pub open spec fn is_binary(tm: DeclareTemplate) -> bool {
    tm is RespondedExistence || tm is Response || tm is Precedence || tm is AltResponse
        || tm is ChainResponse || tm is AltPrecedence || tm is ChainPrecedence
}

/// The binary templates whose rules are read from the second activity back.
pub open spec fn is_backward(tm: DeclareTemplate) -> bool {
    tm is Precedence || tm is AltPrecedence || tm is ChainPrecedence
}

/// The value of a unary rule on a trace: 1 when satisfied, -1 when violated.
pub open spec fn unary_value(tm: DeclareTemplate, t: Seq<Seq<char>>, x: Seq<char>) -> i32 {
    let ok = match tm {
        DeclareTemplate::Existence => t.contains(x),
        DeclareTemplate::ExactlyOne => exactly_once(t, x),
        _ => t.len() > 0 && t[0] == x,
    };
    sign(ok)
}

/// 1 for a satisfied rule, -1 for a violated one.
pub open spec fn sign(ok: bool) -> i32 {
    if ok { 1i32 } else { -1i32 }
}

/// The value of the rule of `tm` on activities `a` and `b` for a trace:
/// 1 when satisfied, -1 when violated, 0 when not activated.
pub open spec fn pair_value(tm: DeclareTemplate, t: Seq<Seq<char>>, a: Seq<char>, b: Seq<char>) -> i32 {
    match tm {
        DeclareTemplate::RespondedExistence => sign(t.contains(b)),
        DeclareTemplate::Response => if t.contains(a) && t.contains(b) { sign(all_before(t, a, b)) } else { 0i32 },
        DeclareTemplate::Precedence => if t.contains(a) && t.contains(b) {
            sign(first_before(t, a, b))
        } else if t.contains(a) {
            0i32
        } else {
            -1i32
        },
        DeclareTemplate::AltResponse => sign(alt_response(t, a, b)),
        DeclareTemplate::ChainResponse => sign(chain_response(t, a, b)),
        DeclareTemplate::AltPrecedence => sign(alt_precedence(t, a, b)),
        _ => sign(chain_precedence(t, a, b)),
    }
}

/// The key of a unary rule: `template|x`.
pub open spec fn unary_key(tm: DeclareTemplate, x: Seq<char>) -> Seq<char> {
    template_name(tm) + "|"@ + x
}

/// The key of a binary rule: `template|a|b`.
pub open spec fn binary_key(tm: DeclareTemplate, a: Seq<char>, b: Seq<char>) -> Seq<char> {
    template_name(tm) + "|"@ + a + "|"@ + b
}

/// The entry of a binary template for an activity `x` of the trace and an
/// activity `y` of the considered ones: forward templates read (x, y),
/// backward ones (y, x).
pub open spec fn pair_entry(tm: DeclareTemplate, t: Seq<Seq<char>>, x: Seq<char>, y: Seq<char>) -> (Seq<char>, i32) {
    if is_backward(tm) {
        (binary_key(tm, y, x), pair_value(tm, t, y, x))
    } else {
        (binary_key(tm, x, y), pair_value(tm, t, x, y))
    }
}

/// The entries for trace activity `x` against every other considered activity.
pub open spec fn pair_entries(tm: DeclareTemplate, t: Seq<Seq<char>>, x: Seq<char>, acts: Seq<Seq<char>>) -> Seq<(Seq<char>, i32)>
    decreases acts.len(),
{
    if acts.len() == 0 {
        Seq::empty()
    } else {
        let rest = pair_entries(tm, t, x, acts.drop_last());
        if acts.last() == x { rest } else { rest.push(pair_entry(tm, t, x, acts.last())) }
    }
}

/// The entries of a binary template, trace activity by trace activity.
pub open spec fn binary_entries(tm: DeclareTemplate, t: Seq<Seq<char>>, xs: Seq<Seq<char>>, acts: Seq<Seq<char>>) -> Seq<(Seq<char>, i32)>
    decreases xs.len(),
{
    if xs.len() == 0 {
        Seq::empty()
    } else {
        binary_entries(tm, t, xs.drop_last(), acts) + pair_entries(tm, t, xs.last(), acts)
    }
}

/// The entries of one template for a trace: one per considered activity for
/// a unary template (none for `init` on an empty trace), one per pair of a
/// trace activity (in order of first occurrence) and another considered
/// activity for a binary one, none for the others.
pub open spec fn template_entries(tm: DeclareTemplate, t: Seq<Seq<char>>, acts: Seq<Seq<char>>) -> Seq<(Seq<char>, i32)> {
    if is_unary(tm) {
        if tm is Init && t.len() == 0 {
            Seq::empty()
        } else {
            Seq::new(acts.len(), |k: int| (unary_key(tm, acts[k]), unary_value(tm, t, acts[k])))
        }
    } else if is_binary(tm) {
        binary_entries(tm, t, distinct_in_order(t), acts)
    } else {
        Seq::empty()
    }
}

/// The order in which the templates fill a row of the table.
pub open spec fn table_order() -> Seq<DeclareTemplate> {
    seq![
        DeclareTemplate::Existence,
        DeclareTemplate::ExactlyOne,
        DeclareTemplate::Init,
        DeclareTemplate::RespondedExistence,
        DeclareTemplate::Response,
        DeclareTemplate::Precedence,
        DeclareTemplate::AltResponse,
        DeclareTemplate::ChainResponse,
        DeclareTemplate::AltPrecedence,
        DeclareTemplate::ChainPrecedence,
    ]
}

/// The entries of the allowed templates among `order`, in that order.
pub open spec fn row_from(t: Seq<Seq<char>>, acts: Seq<Seq<char>>, allowed: Seq<DeclareTemplate>, order: Seq<DeclareTemplate>) -> Seq<(Seq<char>, i32)>
    decreases order.len(),
{
    if order.len() == 0 {
        Seq::empty()
    } else {
        let rest = row_from(t, acts, allowed, order.drop_last());
        if allowed.contains(order.last()) { rest + template_entries(order.last(), t, acts) } else { rest }
    }
}

/// The row of the rules table for a trace with activity sequence `t`.
pub open spec fn rules_row(t: Seq<Seq<char>>, acts: Seq<Seq<char>>, allowed: Seq<DeclareTemplate>) -> Seq<(Seq<char>, i32)> {
    row_from(t, acts, allowed, table_order())
}

/// The rules table of a log: one row per trace, in log order.
pub open spec fn rules_table(log: Seq<TraceView>, acts: Seq<Seq<char>>, allowed: Seq<DeclareTemplate>) -> Seq<Seq<(Seq<char>, i32)>> {
    log.map_values(|tv: TraceView| rules_row(trace_names(tv), acts, allowed))
}

fn unary_value_of(tm: DeclareTemplate, t: &Vec<String>, x: &str) -> (res: i32)
    requires
        is_unary(tm),
    ensures
        res == unary_value(tm, t.deep_view(), x@),
{
    let ok = match tm {
        DeclareTemplate::Existence => occurs_in(t, x),
        DeclareTemplate::ExactlyOne => exactly_once_in(t, x),
        _ => t.len() > 0 && holds(t, 0, x),
    };
    if ok { 1 } else { -1 }
}

fn pair_value_of(tm: DeclareTemplate, t: &Vec<String>, a: &str, b: &str) -> (res: i32)
    requires
        a@ != b@,
    ensures
        res == pair_value(tm, t.deep_view(), a@, b@),
{
    let ok = match tm {
        DeclareTemplate::RespondedExistence => occurs_in(t, b),
        DeclareTemplate::Response => {
            if !(occurs_in(t, a) && occurs_in(t, b)) {
                return 0;
            }
            all_before_in(t, a, b)
        },
        DeclareTemplate::Precedence => {
            let has_a = occurs_in(t, a);
            if !(has_a && occurs_in(t, b)) {
                return if has_a { 0 } else { -1 };
            }
            first_before_in(t, a, b)
        },
        DeclareTemplate::AltResponse => alt_response_in(t, a, b),
        DeclareTemplate::ChainResponse => chain_response_in(t, a, b),
        DeclareTemplate::AltPrecedence => alt_precedence_in(t, a, b),
        _ => chain_precedence_in(t, a, b),
    };
    if ok { 1 } else { -1 }
}

fn is_backward_template(tm: DeclareTemplate) -> (res: bool)
    ensures
        res == is_backward(tm),
{
    match tm {
        DeclareTemplate::Precedence | DeclareTemplate::AltPrecedence | DeclareTemplate::ChainPrecedence => true,
        _ => false,
    }
}

fn unary_key_of(tm: DeclareTemplate, x: &str) -> (res: String)
    ensures
        res@ == unary_key(tm, x@),
{
    let head = concat(tm.as_str(), "|");
    concat(head.as_str(), x)
}

fn binary_key_of(tm: DeclareTemplate, a: &str, b: &str) -> (res: String)
    ensures
        res@ == binary_key(tm, a@, b@),
{
    let head = concat(tm.as_str(), "|");
    let with_a = concat(head.as_str(), a);
    let with_bar = concat(with_a.as_str(), "|");
    concat(with_bar.as_str(), b)
}

fn push_pair_entries(row: &mut Vec<(String, i32)>, tm: DeclareTemplate, t: &Vec<String>, x: &str, acts: &Vec<String>)
    ensures
        final(row).deep_view() == old(row).deep_view() + pair_entries(tm, t.deep_view(), x@, acts.deep_view()),
{
    let ghost r0 = row.deep_view();
    let ghost av = acts.deep_view();
    for k in 0..acts.len()
        invariant
            av == acts.deep_view(),
            row.deep_view() == r0 + pair_entries(tm, t.deep_view(), x@, av.take(k as int)),
    {
        proof {
            assert(av.take(k + 1).drop_last() =~= av.take(k as int));
        }
        let y = acts[k].as_str();
        proof {
            assert(y@ == av[k as int]);
            assert(av.take(k + 1).last() == av[k as int]);
        }
        if !str_eq(y, x) {
            let entry = if is_backward_template(tm) {
                (binary_key_of(tm, y, x), pair_value_of(tm, t, y, x))
            } else {
                (binary_key_of(tm, x, y), pair_value_of(tm, t, x, y))
            };
            let ghost before = row.deep_view();
            proof {
                assert(entry.deep_view() == pair_entry(tm, t.deep_view(), x@, av[k as int]));
            }
            row.push(entry);
            proof {
                assert(row.deep_view() =~= before.push(entry.deep_view()));
                assert(row.deep_view() =~= r0 + pair_entries(tm, t.deep_view(), x@, av.take(k + 1)));
            }
        }
    }
    proof {
        assert(av.take(av.len() as int) =~= av);
    }
}

fn push_binary_entries(row: &mut Vec<(String, i32)>, tm: DeclareTemplate, t: &Vec<String>, xs: &Vec<String>, acts: &Vec<String>)
    ensures
        final(row).deep_view() == old(row).deep_view() + binary_entries(tm, t.deep_view(), xs.deep_view(), acts.deep_view()),
{
    let ghost r0 = row.deep_view();
    let ghost xv = xs.deep_view();
    for k in 0..xs.len()
        invariant
            xv == xs.deep_view(),
            row.deep_view() == r0 + binary_entries(tm, t.deep_view(), xv.take(k as int), acts.deep_view()),
    {
        proof {
            assert(xv.take(k + 1).drop_last() =~= xv.take(k as int));
        }
        let ghost before = row.deep_view();
        push_pair_entries(row, tm, t, xs[k].as_str(), acts);
        proof {
            let b = binary_entries(tm, t.deep_view(), xv.take(k as int), acts.deep_view());
            let p = pair_entries(tm, t.deep_view(), xv[k as int], acts.deep_view());
            assert(row.deep_view() =~= r0 + (b + p));
        }
    }
    proof {
        assert(xv.take(xv.len() as int) =~= xv);
    }
}

fn push_unary_entries(row: &mut Vec<(String, i32)>, tm: DeclareTemplate, t: &Vec<String>, acts: &Vec<String>)
    requires
        is_unary(tm),
    ensures
        final(row).deep_view() == old(row).deep_view() + Seq::new(
            acts.deep_view().len(),
            |k: int| (unary_key(tm, acts.deep_view()[k]), unary_value(tm, t.deep_view(), acts.deep_view()[k])),
        ),
{
    let ghost r0 = row.deep_view();
    let ghost av = acts.deep_view();
    let ghost tv = t.deep_view();
    for k in 0..acts.len()
        invariant
            av == acts.deep_view(),
            tv == t.deep_view(),
            is_unary(tm),
            row.deep_view() == r0 + Seq::new(k as nat, |i: int| (unary_key(tm, av[i]), unary_value(tm, tv, av[i]))),
    {
        let x = acts[k].as_str();
        let entry = (unary_key_of(tm, x), unary_value_of(tm, t, x));
        let ghost before = row.deep_view();
        row.push(entry);
        proof {
            assert(x@ == av[k as int]);
            assert(row.deep_view() =~= before.push(entry.deep_view()));
            assert(row.deep_view() =~= r0 + Seq::new((k + 1) as nat, |i: int| (unary_key(tm, av[i]), unary_value(tm, tv, av[i]))));
        }
    }
}

fn push_template_entries(
    row: &mut Vec<(String, i32)>,
    tm: DeclareTemplate,
    t: &Vec<String>,
    xs: &Vec<String>,
    acts: &Vec<String>,
)
    requires
        xs.deep_view() == distinct_in_order(t.deep_view()),
    ensures
        final(row).deep_view() == old(row).deep_view() + template_entries(tm, t.deep_view(), acts.deep_view()),
{
    match tm {
        DeclareTemplate::Existence | DeclareTemplate::ExactlyOne => {
            push_unary_entries(row, tm, t, acts);
        },
        DeclareTemplate::Init => {
            if t.len() > 0 {
                push_unary_entries(row, tm, t, acts);
            } else {
                proof {
                    assert(row.deep_view() =~= old(row).deep_view() + Seq::<(Seq<char>, i32)>::empty());
                }
            }
        },
        DeclareTemplate::RespondedExistence | DeclareTemplate::Response | DeclareTemplate::Precedence
        | DeclareTemplate::AltResponse | DeclareTemplate::ChainResponse | DeclareTemplate::AltPrecedence
        | DeclareTemplate::ChainPrecedence => {
            push_binary_entries(row, tm, t, xs, acts);
        },
        _ => {
            proof {
                assert(row.deep_view() =~= old(row).deep_view() + Seq::<(Seq<char>, i32)>::empty());
            }
        },
    }
}

fn template_allowed(allowed: &Vec<DeclareTemplate>, tm: DeclareTemplate) -> (res: bool)
    ensures
        res == allowed@.contains(tm),
{
    for i in 0..allowed.len()
        invariant
            forall|j: int| 0 <= j < i ==> allowed@[j] != tm,
    {
        if allowed[i] == tm {
            return true;
        }
    }
    false
}

fn rules_row_of(t: &Vec<String>, acts: &Vec<String>, allowed: &Vec<DeclareTemplate>) -> (res: Vec<(String, i32)>)
    ensures
        res.deep_view() == rules_row(t.deep_view(), acts.deep_view(), allowed@),
{
    let order: Vec<DeclareTemplate> = vec![
        DeclareTemplate::Existence,
        DeclareTemplate::ExactlyOne,
        DeclareTemplate::Init,
        DeclareTemplate::RespondedExistence,
        DeclareTemplate::Response,
        DeclareTemplate::Precedence,
        DeclareTemplate::AltResponse,
        DeclareTemplate::ChainResponse,
        DeclareTemplate::AltPrecedence,
        DeclareTemplate::ChainPrecedence,
    ];
    proof {
        assert(order@ =~= table_order());
    }
    let xs = distinct_names(t);
    let mut row: Vec<(String, i32)> = Vec::new();
    for k in 0..order.len()
        invariant
            order@ == table_order(),
            xs.deep_view() == distinct_in_order(t.deep_view()),
            row.deep_view() == row_from(t.deep_view(), acts.deep_view(), allowed@, table_order().take(k as int)),
    {
        proof {
            assert(table_order().take(k + 1).drop_last() =~= table_order().take(k as int));
        }
        let tm = order[k];
        if template_allowed(allowed, tm) {
            push_template_entries(&mut row, tm, t, &xs, acts);
        }
    }
    proof {
        assert(table_order().take(10) =~= table_order());
    }
    row
}

/// The rules table of a log: for each trace, in log order, the value of
/// every rule of the allowed templates (taken in the order existence,
/// exactly_one, init, responded_existence, response, precedence,
/// altresponse, chainresponse, altprecedence, chainprecedence; the other
/// templates are derived later and have no entries), keyed `template|x` for
/// each considered activity `x` or `template|a|b` for each pair of an
/// activity of the trace and another considered activity (for the
/// precedence templates the trace activity is `b`).
pub fn form_rules_table(log: &EventLog, activities: &Vec<String>, allowed_templates: &Vec<DeclareTemplate>) -> (res: Vec<Vec<(String, i32)>>)
    ensures
        res.deep_view() == rules_table(log@, activities.deep_view(), allowed_templates@),
{
    let mut table: Vec<Vec<(String, i32)>> = Vec::new();
    for k in 0..log.traces.len()
        invariant
            table.deep_view().len() == k,
            forall|j: int| 0 <= j < k ==> #[trigger] table.deep_view()[j]
                == rules_row(trace_names(log@[j]), activities.deep_view(), allowed_templates@),
    {
        let names = trace_activity_names(&log.traces[k]);
        let row = rules_row_of(&names, activities, allowed_templates);
        let ghost before = table.deep_view();
        table.push(row);
        proof {
            assert(table.deep_view() =~= before.push(row.deep_view()));
        }
    }
    proof {
        assert(table.deep_view() =~= rules_table(log@, activities.deep_view(), allowed_templates@));
    }
    table
}

/// Every (column, value) entry of a rules table, row after row.
pub open spec fn all_entries(table: Seq<Seq<(Seq<char>, i32)>>) -> Seq<(Seq<char>, i32)>
    decreases table.len(),
{
    if table.len() == 0 {
        Seq::empty()
    } else {
        all_entries(table.drop_last()) + table.last()
    }
}

/// How many entries of column `k` are non-zero (or, with `positive`,
/// positive).
pub open spec fn entry_count(es: Seq<(Seq<char>, i32)>, k: Seq<char>, positive: bool) -> nat
    decreases es.len(),
{
    if es.len() == 0 {
        0
    } else {
        entry_count(es.drop_last(), k, positive)
            + if es.last().0 == k && (if positive { es.last().1 > 0 } else { es.last().1 != 0 }) { 1nat } else { 0nat }
    }
}

proof fn lemma_entry_count_push(es: Seq<(Seq<char>, i32)>, e: (Seq<char>, i32), k: Seq<char>, positive: bool)
    ensures
        entry_count(es.push(e), k, positive) == entry_count(es, k, positive)
            + if e.0 == k && (if positive { e.1 > 0 } else { e.1 != 0 }) { 1nat } else { 0nat },
{
    assert(es.push(e).drop_last() =~= es);
}

/// The columns of a table in order of first appearance, each with its
/// support (rows where the rule is activated, non-zero) and its confidence
/// (rows where it holds, positive).
pub open spec fn column_counts_spec(table: Seq<Seq<(Seq<char>, i32)>>) -> Seq<(Seq<char>, nat, nat)> {
    let es = all_entries(table);
    distinct_in_order(es.map_values(|e: (Seq<char>, i32)| e.0)).map_values(
        |k: Seq<char>| (k, entry_count(es, k, false), entry_count(es, k, true)),
    )
}

fn find_column(keys: &Vec<String>, k: &str) -> (res: Option<usize>)
    ensures
        match res {
            Some(j) => j < keys@.len() && keys.deep_view()[j as int] == k@,
            None => !keys.deep_view().contains(k@),
        },
{
    for j in 0..keys.len()
        invariant
            forall|x: int| 0 <= x < j ==> keys.deep_view()[x] != k@,
    {
        if str_eq(keys[j].as_str(), k) {
            return Some(j);
        }
    }
    None
}

proof fn lemma_entry_count_le(es: Seq<(Seq<char>, i32)>, k: Seq<char>, positive: bool)
    ensures
        entry_count(es, k, positive) <= es.len(),
    decreases es.len(),
{
    if es.len() > 0 {
        lemma_entry_count_le(es.drop_last(), k, positive);
    }
}

/// The support and confidence of each column of a rules table, columns in
/// order of first appearance, as `column_counts_spec` states.
pub fn column_counts(table: &Vec<Vec<(String, i32)>>) -> (res: Vec<(String, usize, usize)>)
    requires
        all_entries(table.deep_view()).len() <= usize::MAX,
    ensures
        res.deep_view().len() == column_counts_spec(table.deep_view()).len(),
        forall|j: int| 0 <= j < res@.len() ==> (res@[j].0@, res@[j].1 as nat, res@[j].2 as nat) == #[trigger] column_counts_spec(table.deep_view())[j],
{
    let ghost tv = table.deep_view();
    let mut keys: Vec<String> = Vec::new();
    let mut sup: Vec<usize> = Vec::new();
    let mut conf: Vec<usize> = Vec::new();
    let ghost mut done: Seq<(Seq<char>, i32)> = Seq::empty();
    proof {
        assert(tv.take(0) =~= Seq::<Seq<(Seq<char>, i32)>>::empty());
    }
    for r in 0..table.len()
        invariant
            tv == table.deep_view(),
            all_entries(tv).len() <= usize::MAX,
            done == all_entries(tv.take(r as int)),
            keys.deep_view() == distinct_in_order(done.map_values(|e: (Seq<char>, i32)| e.0)),
            sup@.len() == keys@.len(),
            conf@.len() == keys@.len(),
            forall|j: int| 0 <= j < keys@.len() ==> #[trigger] sup@[j] == entry_count(done, keys.deep_view()[j], false)
                && conf@[j] == entry_count(done, keys.deep_view()[j], true),
    {
        let row = &table[r];
        let ghost rv = row.deep_view();
        proof {
            assert(rv == tv[r as int]);
            lemma_all_entries_take(tv, r as int);
        }
        let ghost d0 = done;
        for c in 0..row.len()
            invariant
                tv == table.deep_view(),
                rv == row.deep_view(),
                all_entries(tv).len() <= usize::MAX,
                d0 + rv == all_entries(tv.take(r + 1)),
                d0.len() + rv.len() <= usize::MAX,
                done == d0 + rv.take(c as int),
                keys.deep_view() == distinct_in_order(done.map_values(|e: (Seq<char>, i32)| e.0)),
                sup@.len() == keys@.len(),
                conf@.len() == keys@.len(),
                forall|j: int| 0 <= j < keys@.len() ==> #[trigger] sup@[j] == entry_count(done, keys.deep_view()[j], false)
                    && conf@[j] == entry_count(done, keys.deep_view()[j], true),
        {
            let k = row[c].0.as_str();
            let v = row[c].1;
            let ghost e = (k@, v);
            let ghost nd = done.push(e);
            proof {
                assert(rv[c as int] == e);
                assert(d0 + rv.take(c + 1) =~= nd);
                assert(nd.drop_last() =~= done);
                assert(nd.map_values(|e: (Seq<char>, i32)| e.0).drop_last() =~= done.map_values(|e: (Seq<char>, i32)| e.0));
                lemma_entry_count_le(nd, k@, false);
                lemma_entry_count_le(nd, k@, true);
                assert(nd.len() <= d0.len() + rv.len());
            }
            match find_column(&keys, k) {
                Some(j) => {
                    let ghost s0 = sup@;
                    let ghost c0 = conf@;
                    let ghost kd = keys.deep_view();
                    proof {
                        assert forall|x: int| 0 <= x < keys@.len() implies s0[x] == entry_count(done, kd[x], false)
                            && c0[x] == entry_count(done, kd[x], true) by {
                            assert(sup@[x] == entry_count(done, keys.deep_view()[x], false));
                        }
                        lemma_distinct_in_order(done.map_values(|e: (Seq<char>, i32)| e.0));
                        assert(done.map_values(|e: (Seq<char>, i32)| e.0).push(k@) =~= nd.map_values(|e: (Seq<char>, i32)| e.0));
                        assert(keys.deep_view().contains(k@));
                        assert(distinct_in_order(nd.map_values(|e: (Seq<char>, i32)| e.0)) == keys.deep_view());
                        assert forall|x: int| 0 <= x < keys@.len() && x != j implies keys.deep_view()[x] != k@ by {
                            assert(keys.deep_view()[x] != keys.deep_view()[j as int]);
                        }
                    }
                    if v != 0 {
                        sup.set(j, sup[j] + 1);
                    }
                    if v > 0 {
                        conf.set(j, conf[j] + 1);
                    }
                    proof {
                        assert forall|x: int| 0 <= x < keys@.len() implies #[trigger] sup@[x] == entry_count(nd, keys.deep_view()[x], false)
                            && conf@[x] == entry_count(nd, keys.deep_view()[x], true) by {
                            lemma_entry_count_push(done, e, kd[x], false);
                            lemma_entry_count_push(done, e, kd[x], true);
                            if x != j {
                                assert(kd[x] != k@);
                                assert(sup@[x] == s0[x] && conf@[x] == c0[x]);
                            } else {
                                assert(kd[x] == k@);
                            }
                        }
                    }
                },
                None => {
                    let ghost kd = keys.deep_view();
                    let ghost s0 = sup@;
                    let ghost c0 = conf@;
                    proof {
                        assert forall|x: int| 0 <= x < keys@.len() implies s0[x] == entry_count(done, kd[x], false)
                            && c0[x] == entry_count(done, kd[x], true) by {
                            assert(sup@[x] == entry_count(done, keys.deep_view()[x], false));
                        }
                        assert(done.map_values(|e: (Seq<char>, i32)| e.0).push(k@) =~= nd.map_values(|e: (Seq<char>, i32)| e.0));
                        assert(distinct_in_order(nd.map_values(|e: (Seq<char>, i32)| e.0)) == kd.push(k@));
                    }
                    keys.push(k.to_string());
                    proof {
                        assert(keys.deep_view() =~= kd.push(k@));
                        assert forall|x: int| 0 <= x < kd.len() implies kd[x] != k@ by {
                            assert(kd.contains(kd[x]));
                        }
                    }
                    sup.push(if v != 0 { 1 } else { 0 });
                    conf.push(if v > 0 { 1 } else { 0 });
                    proof {
                        assert(entry_count(done, k@, false) == 0) by {
                            lemma_count_absent(done, k@, false);
                        }
                        assert(entry_count(done, k@, true) == 0) by {
                            lemma_count_absent(done, k@, true);
                        }
                        assert forall|x: int| 0 <= x < keys@.len() implies #[trigger] sup@[x] == entry_count(nd, keys.deep_view()[x], false)
                            && conf@[x] == entry_count(nd, keys.deep_view()[x], true) by {
                            lemma_entry_count_push(done, e, keys.deep_view()[x], false);
                            lemma_entry_count_push(done, e, keys.deep_view()[x], true);
                            if x < kd.len() {
                                assert(keys.deep_view()[x] == kd[x]);
                                assert(kd[x] != k@);
                                assert(sup@[x] == s0[x] && conf@[x] == c0[x]);
                            } else {
                                assert(keys.deep_view()[x] == k@);
                            }
                        }
                    }
                },
            }
            proof {
                lemma_distinct_in_order(nd.map_values(|e: (Seq<char>, i32)| e.0));
                assert(nd.last() == e);
                done = nd;
            }
        }
        proof {
            assert(rv.take(rv.len() as int) =~= rv);
        }
    }
    proof {
        assert(tv.take(tv.len() as int) =~= tv);
    }
    let mut out: Vec<(String, usize, usize)> = Vec::new();
    for j in 0..keys.len()
        invariant
            out@.len() == j,
            sup@.len() == keys@.len(),
            conf@.len() == keys@.len(),
            forall|x: int| 0 <= x < j ==> (#[trigger] out@[x]).0@ == keys.deep_view()[x] && out@[x].1 == sup@[x] && out@[x].2 == conf@[x],
    {
        out.push((keys[j].clone(), sup[j], conf[j]));
    }
    proof {
        assert(out.deep_view().len() == out@.len());
    }
    out
}

proof fn lemma_all_entries_take(tv: Seq<Seq<(Seq<char>, i32)>>, r: int)
    requires
        0 <= r < tv.len(),
    ensures
        all_entries(tv.take(r + 1)) == all_entries(tv.take(r)) + tv[r],
        all_entries(tv.take(r + 1)).len() <= all_entries(tv).len(),
{
    assert(tv.take(r + 1).drop_last() =~= tv.take(r));
    lemma_all_entries_prefix(tv, r + 1);
}

proof fn lemma_all_entries_prefix(tv: Seq<Seq<(Seq<char>, i32)>>, r: int)
    requires
        0 <= r <= tv.len(),
    ensures
        all_entries(tv.take(r)).len() <= all_entries(tv).len(),
    decreases tv.len() - r,
{
    if r < tv.len() {
        lemma_all_entries_prefix(tv, r + 1);
        assert(tv.take(r + 1).drop_last() =~= tv.take(r));
    } else {
        assert(tv.take(r) =~= tv);
    }
}

proof fn lemma_count_absent(es: Seq<(Seq<char>, i32)>, k: Seq<char>, positive: bool)
    requires
        !distinct_in_order(es.map_values(|e: (Seq<char>, i32)| e.0)).contains(k),
    ensures
        entry_count(es, k, positive) == 0,
    decreases es.len(),
{
    if es.len() > 0 {
        let d = es.drop_last();
        assert(es.map_values(|e: (Seq<char>, i32)| e.0).drop_last() =~= d.map_values(|e: (Seq<char>, i32)| e.0));
        let dd = distinct_in_order(d.map_values(|e: (Seq<char>, i32)| e.0));
        if dd.contains(k) {
            let i = choose|i: int| 0 <= i < dd.len() && dd[i] == k;
            assert(distinct_in_order(es.map_values(|e: (Seq<char>, i32)| e.0)).contains(k)) by {
                if !dd.contains(es.last().0) {
                    assert(dd.push(es.last().0)[i] == k);
                }
            }
        }
        lemma_count_absent(d, k, positive);
        if es.last().0 == k {
            assert(es.map_values(|e: (Seq<char>, i32)| e.0).last() == k);
            if dd.contains(k) {
            } else {
                assert(dd.push(k)[dd.len() as int] == k);
            }
        }
    }
}

/// The rules of one template by key.
pub open spec fn rule_view(v: Seq<(String, DeclareRule)>) -> Seq<(Seq<char>, DeclareRule)> {
    v.map_values(|e: (String, DeclareRule)| (e.0@, e.1))
}

/// The rule of the first entry with key `k`.
pub open spec fn lookup_rule(es: Seq<(Seq<char>, DeclareRule)>, k: Seq<char>) -> Option<DeclareRule>
    decreases es.len(),
{
    if es.len() == 0 {
        None
    } else if es[0].0 == k {
        Some(es[0].1)
    } else {
        lookup_rule(es.drop_first(), k)
    }
}

/// The smaller support and the smaller confidence of two rules.
pub open spec fn min_rule(a: DeclareRule, b: DeclareRule) -> DeclareRule {
    DeclareRule {
        support: if a.support < b.support { a.support } else { b.support },
        confidence: if a.confidence < b.confidence { a.confidence } else { b.confidence },
    }
}

/// The rules of `es` whose key has a rule in `other`, each with the
/// smaller support and confidence of the two.
pub open spec fn joined_rules(es: Seq<(Seq<char>, DeclareRule)>, other: Seq<(Seq<char>, DeclareRule)>) -> Seq<(Seq<char>, DeclareRule)> {
    es.filter_map(|e: (Seq<char>, DeclareRule)| match lookup_rule(other, e.0) {
        Some(r) => Some((e.0, min_rule(e.1, r))),
        None => None,
    })
}

/// The key `b|a` of a key `a|b`: its last `|`-separated piece, `|`, and its
/// first piece.
pub open spec fn reversed_key(k: Seq<char>) -> Seq<char> {
    let ps = split_on(k, '|');
    let first = if ps.len() > 0 { ps[0] } else { Seq::empty() };
    let last = if ps.len() > 0 { ps.last() } else { Seq::empty() };
    last + "|"@ + first
}

/// The rules of `es` whose reversed key also has a rule, each with the
/// smaller support and confidence of the two.
pub open spec fn mutual_rules(es: Seq<(Seq<char>, DeclareRule)>) -> Seq<(Seq<char>, DeclareRule)> {
    es.filter_map(|e: (Seq<char>, DeclareRule)| match lookup_rule(es, reversed_key(e.0)) {
        Some(r) => Some((e.0, min_rule(e.1, r))),
        None => None,
    })
}

fn find_rule(es: &Vec<(String, DeclareRule)>, k: &str) -> (res: Option<DeclareRule>)
    ensures
        res == lookup_rule(rule_view(es@), k@),
{
    let ghost v = rule_view(es@);
    let mut i: usize = 0;
    proof {
        assert(v.skip(0) =~= v);
    }
    while i < es.len()
        invariant
            v == rule_view(es@),
            i <= es@.len(),
            lookup_rule(v.skip(i as int), k@) == lookup_rule(v, k@),
        decreases es@.len() - i,
    {
        let ghost w = v.skip(i as int);
        proof {
            assert(w[0] == (es@[i as int].0@, es@[i as int].1));
            assert(w.drop_first() =~= v.skip(i + 1));
        }
        if str_eq(es[i].0.as_str(), k) {
            return Some(es[i].1);
        }
        i = i + 1;
    }
    proof {
        assert(v.skip(i as int).len() == 0);
    }
    None
}

fn min_of(a: DeclareRule, b: DeclareRule) -> (res: DeclareRule)
    ensures
        res == min_rule(a, b),
{
    DeclareRule {
        support: if a.support < b.support { a.support } else { b.support },
        confidence: if a.confidence < b.confidence { a.confidence } else { b.confidence },
    }
}

fn join_with(es: &Vec<(String, DeclareRule)>, other: &Vec<(String, DeclareRule)>, mutual: bool) -> (res: Vec<(String, DeclareRule)>)
    ensures
        !mutual ==> rule_view(res@) == joined_rules(rule_view(es@), rule_view(other@)),
        mutual ==> rule_view(res@) == mutual_rules(rule_view(es@)),
{
    let ghost ev = rule_view(es@);
    let ghost ov = rule_view(other@);
    let ghost f = if mutual {
        |e: (Seq<char>, DeclareRule)| match lookup_rule(ev, reversed_key(e.0)) {
            Some(r) => Some((e.0, min_rule(e.1, r))),
            None => None,
        }
    } else {
        |e: (Seq<char>, DeclareRule)| match lookup_rule(ov, e.0) {
            Some(r) => Some((e.0, min_rule(e.1, r))),
            None => None,
        }
    };
    let mut out: Vec<(String, DeclareRule)> = Vec::new();
    for i in 0..es.len()
        invariant
            ev == rule_view(es@),
            ov == rule_view(other@),
            f == if mutual {
                |e: (Seq<char>, DeclareRule)| match lookup_rule(ev, reversed_key(e.0)) {
                    Some(r) => Some((e.0, min_rule(e.1, r))),
                    None => None,
                }
            } else {
                |e: (Seq<char>, DeclareRule)| match lookup_rule(ov, e.0) {
                    Some(r) => Some((e.0, min_rule(e.1, r))),
                    None => None,
                }
            },
            rule_view(out@) == ev.take(i as int).filter_map(f),
    {
        proof {
            ev.lemma_filter_map_take_succ(f, i as int);
            assert(ev[i as int] == (es@[i as int].0@, es@[i as int].1));
        }
        let key = es[i].0.as_str();
        let found = if mutual {
            let rk = reverse_key(key);
            find_rule(es, rk.as_str())
        } else {
            find_rule(other, key)
        };
        match found {
            Some(r) => {
                let ghost before = rule_view(out@);
                out.push((es[i].0.clone(), min_of(es[i].1, r)));
                proof {
                    assert(rule_view(out@) =~= before + seq![(key@, min_rule(es@[i as int].1, r))]);
                }
            },
            None => {
                proof {
                    assert(rule_view(out@) =~= rule_view(out@) + Seq::<(Seq<char>, DeclareRule)>::empty());
                }
            },
        }
    }
    proof {
        assert(ev.take(ev.len() as int) =~= ev);
    }
    out
}

fn reverse_key(k: &str) -> (res: String)
    ensures
        res@ == reversed_key(k@),
{
    let ps = split_str(k, '|');
    let first = if ps.len() > 0 { ps[0].clone() } else { String::new() };
    let last = if ps.len() > 0 { ps[ps.len() - 1].clone() } else { String::new() };
    proof {
        reveal_strlit("|");
        if ps.len() > 0 {
            assert(ps.deep_view()[0] == ps@[0]@);
            assert(ps.deep_view().last() == ps@[ps@.len() - 1]@);
        }
    }
    let a = concat(last.as_str(), "|");
    concat(a.as_str(), first.as_str())
}

/// Succession rules from response and precedence rules: each response rule
/// whose key also has a precedence rule, with the smaller support and the
/// smaller confidence of the two.
pub fn succession_rules(response: &Vec<(String, DeclareRule)>, precedence: &Vec<(String, DeclareRule)>) -> (res: Vec<(String, DeclareRule)>)
    ensures
        rule_view(res@) == joined_rules(rule_view(response@), rule_view(precedence@)),
{
    join_with(response, precedence, false)
}

/// Coexistence rules from responded-existence rules: each rule `a|b` for
/// which `b|a` also has a rule, with the smaller support and the smaller
/// confidence of the two.
pub fn coexistence_rules(responded_existence: &Vec<(String, DeclareRule)>) -> (res: Vec<(String, DeclareRule)>)
    ensures
        rule_view(res@) == mutual_rules(rule_view(responded_existence@)),
{
    join_with(responded_existence, responded_existence, true)
}

/// The absence rule of an existence rule.
pub open spec fn absence_entry(e: (Seq<char>, DeclareRule)) -> (Seq<char>, DeclareRule) {
    (e.0, DeclareRule { support: e.1.support, confidence: (e.1.support - e.1.confidence) as usize })
}

/// Absence rules from existence rules: the same support, and as confidence
/// the traces where the activity did not occur (support minus confidence).
pub fn absence_rules(existence: &Vec<(String, DeclareRule)>) -> (res: Vec<(String, DeclareRule)>)
    requires
        forall|i: int| 0 <= i < existence@.len() ==> (#[trigger] existence@[i]).1.confidence <= existence@[i].1.support,
    ensures
        rule_view(res@) == rule_view(existence@).map_values(|e: (Seq<char>, DeclareRule)|
            absence_entry(e)),
{
    let ghost ev = rule_view(existence@);
    let mut out: Vec<(String, DeclareRule)> = Vec::new();
    for i in 0..existence.len()
        invariant
            ev == rule_view(existence@),
            forall|i: int| 0 <= i < existence@.len() ==> (#[trigger] existence@[i]).1.confidence <= existence@[i].1.support,
            rule_view(out@) == ev.take(i as int).map_values(|e: (Seq<char>, DeclareRule)|
                absence_entry(e)),
    {
        let r = existence[i].1;
        let ghost before = rule_view(out@);
        out.push((existence[i].0.clone(), DeclareRule { support: r.support, confidence: r.support - r.confidence }));
        proof {
            assert(ev[i as int] == (existence@[i as int].0@, r));
            assert(rule_view(out@) =~= before.push(absence_entry(ev[i as int])));
            assert(ev.take(i + 1) =~= ev.take(i as int).push(ev[i as int]));
            assert(rule_view(out@) =~= ev.take(i + 1).map_values(|e: (Seq<char>, DeclareRule)|
                absence_entry(e)));
        }
    }
    proof {
        assert(ev.take(ev.len() as int) =~= ev);
    }
    out
}

/// The template and rule key of a rules-table column `template|a` or
/// `template|a|b`: the part before the first `|`, and the activity or the
/// two activities joined by `|`.
pub open spec fn column_rule_spec(column: Seq<char>) -> (Seq<char>, Seq<char>) {
    let parts = split_on(column, '|');
    (parts[0], if parts.len() == 2 { parts[1] } else { parts[1] + seq!['|'] + parts[2] })
}

/// Splits a rules-table column into its template and rule key.
pub fn column_rule(column: &str) -> (res: (String, String))
    requires
        split_on(column@, '|').len() >= 2,
    ensures
        (res.0@, res.1@) == column_rule_spec(column@),
{
    let parts = split_str(column, '|');
    proof {
        assert(parts.deep_view()[0] == parts@[0]@);
        assert(parts.deep_view()[1] == parts@[1]@);
    }
    let template = parts[0].clone();
    if parts.len() == 2 {
        (template, parts[1].clone())
    } else {
        proof {
            assert(parts.deep_view()[2] == parts@[2]@);
            reveal_strlit("|");
        }
        let first = concat(parts[1].as_str(), "|");
        (template, concat(first.as_str(), parts[2].as_str()))
    }
}

/// The rules of `rules` as plain values.
pub open spec fn rule_entries(rules: Seq<(String, String, DeclareRule)>) -> Seq<(Seq<char>, Seq<char>, DeclareRule)> {
    rules.map_values(|e: (String, String, DeclareRule)| (e.0@, e.1@, e.2))
}

/// The keyed rules of one template as plain values.
pub open spec fn keyed_rules(v: Seq<(String, DeclareRule)>) -> Seq<(Seq<char>, DeclareRule)> {
    v.map_values(|x: (String, DeclareRule)| (x.0@, x.1))
}

/// Groups of rules as plain values.
pub open spec fn rule_groups(out: Seq<(String, Vec<(String, DeclareRule)>)>) -> Seq<(Seq<char>, Seq<(Seq<char>, DeclareRule)>)> {
    out.map_values(|g: (String, Vec<(String, DeclareRule)>)| (g.0@, keyed_rules(g.1@)))
}

/// The rules grouped by template: templates in order of first appearance,
/// each with its rule keys and rules in order.
pub open spec fn grouped_rules(rules: Seq<(Seq<char>, Seq<char>, DeclareRule)>) -> Seq<(Seq<char>, Seq<(Seq<char>, DeclareRule)>)>
    decreases rules.len(),
{
    if rules.len() == 0 {
        Seq::empty()
    } else {
        let gs = grouped_rules(rules.drop_last());
        let r = rules.last();
        let g = template_slot(gs, r.0);
        if g < gs.len() {
            gs.update(g, (gs[g].0, gs[g].1.push((r.1, r.2))))
        } else {
            gs.push((r.0, seq![(r.1, r.2)]))
        }
    }
}

/// The first group of `gs` with template `t`, or `gs.len()` when none has it.
pub open spec fn template_slot(gs: Seq<(Seq<char>, Seq<(Seq<char>, DeclareRule)>)>, t: Seq<char>) -> int
    decreases gs.len(),
{
    if gs.len() == 0 {
        0
    } else if template_slot(gs.drop_last(), t) < gs.len() - 1 {
        template_slot(gs.drop_last(), t)
    } else if gs.last().0 == t {
        gs.len() - 1
    } else {
        gs.len() as int
    }
}

proof fn lemma_template_slot(gs: Seq<(Seq<char>, Seq<(Seq<char>, DeclareRule)>)>, t: Seq<char>)
    ensures
        0 <= template_slot(gs, t) <= gs.len(),
        template_slot(gs, t) < gs.len() ==> gs[template_slot(gs, t)].0 == t,
        forall|g: int| 0 <= g < template_slot(gs, t) ==> gs[g].0 != t,
    decreases gs.len(),
{
    if gs.len() > 0 {
        let d = gs.drop_last();
        lemma_template_slot(d, t);
        assert forall|g: int| 0 <= g < template_slot(gs, t) implies gs[g].0 != t by {
            if g < d.len() {
                assert(gs[g] == d[g]);
            }
        }
    }
}

/// Groups rules by template, as `grouped_rules` states.
pub fn group_rules(rules: &Vec<(String, String, DeclareRule)>) -> (res: Vec<(String, Vec<(String, DeclareRule)>)>)
    ensures
        rule_groups(res@) == grouped_rules(rule_entries(rules@)),
{
    let ghost rv = rule_entries(rules@);
    let mut out: Vec<(String, Vec<(String, DeclareRule)>)> = Vec::new();
    proof {
        assert(rule_groups(out@) =~= Seq::<(Seq<char>, Seq<(Seq<char>, DeclareRule)>)>::empty());
        assert(rv.take(0) =~= Seq::<(Seq<char>, Seq<char>, DeclareRule)>::empty());
    }
    for i in 0..rules.len()
        invariant
            rv == rule_entries(rules@),
            rule_groups(out@) == grouped_rules(rv.take(i as int)),
    {
        let ghost gs = rule_groups(out@);
        proof {
            assert(rv.take(i + 1).drop_last() =~= rv.take(i as int));
            assert(rv.take(i + 1).last() == rv[i as int]);
            lemma_template_slot(gs, rv[i as int].0);
        }
        let mut g: usize = 0;
        while g < out.len() && !str_eq(out[g].0.as_str(), rules[i].0.as_str())
            invariant
                gs == rule_groups(out@),
                rv == rule_entries(rules@),
                i < rules.len(),
                g <= out.len(),
                forall|h: int| 0 <= h < g ==> gs[h].0 != rv[i as int].0,
            decreases out.len() - g,
        {
            g = g + 1;
        }
        proof {
            lemma_template_slot(gs, rv[i as int].0);
            let sl = template_slot(gs, rv[i as int].0);
            if g < out.len() {
                assert(gs[g as int].0 == rv[i as int].0);
                if sl < g {
                    assert(gs[sl].0 == rv[i as int].0);
                }
            } else if sl < gs.len() {
                assert(gs[sl].0 == rv[i as int].0);
            }
            assert(g == sl);
        }
        let key = rules[i].1.clone();
        let rule = rules[i].2;
        if g < out.len() {
            let ghost before = out@;
            let mut entry = out.remove(g);
            let ghost ev = entry.1@;
            entry.1.push((key, rule));
            out.insert(g, entry);
            proof {
                assert(keyed_rules(entry.1@) =~= keyed_rules(ev).push((rv[i as int].1, rv[i as int].2)));
                assert(out@ =~= before.update(g as int, entry));
                assert(rule_groups(out@) =~= gs.update(g as int, (gs[g as int].0, gs[g as int].1.push((rv[i as int].1, rv[i as int].2)))));
            }
        } else {
            let mut v: Vec<(String, DeclareRule)> = Vec::new();
            v.push((key, rule));
            let ghost before = out@;
            out.push((rules[i].0.clone(), v));
            proof {
                assert(keyed_rules(v@) =~= seq![(rv[i as int].1, rv[i as int].2)]);
                assert(rule_groups(out@) =~= gs.push((rv[i as int].0, seq![(rv[i as int].1, rv[i as int].2)])));
            }
        }
    }
    proof {
        assert(rv.take(rules.len() as int) =~= rv);
    }
    out
}

/// The largest row length among the rows of the table with a positive
/// entry; zero when no row has one.
pub open spec fn best_support_spec(table: Seq<Seq<(Seq<char>, i32)>>) -> nat
    decreases table.len(),
{
    if table.len() == 0 {
        0
    } else {
        let rest = best_support_spec(table.drop_last());
        let row = table.last();
        if (exists|k: int| 0 <= k < row.len() && #[trigger] row[k].1 > 0) && row.len() > rest {
            row.len()
        } else {
            rest
        }
    }
}

/// The support the default thresholds start from: the most rules of a row
/// that has a satisfied rule.
pub fn best_support(table: &Vec<Vec<(String, i32)>>) -> (res: usize)
    ensures
        res == best_support_spec(table.deep_view()),
{
    let ghost tv = table.deep_view();
    let mut best: usize = 0;
    for r in 0..table.len()
        invariant
            tv == table.deep_view(),
            best == best_support_spec(tv.take(r as int)),
    {
        let row = &table[r];
        let mut positive = false;
        for k in 0..row.len()
            invariant
                positive == exists|x: int| 0 <= x < k && #[trigger] row.deep_view()[x].1 > 0,
        {
            proof {
                assert(row.deep_view()[k as int].1 == row@[k as int].1);
            }
            if row[k].1 > 0 {
                positive = true;
            }
        }
        proof {
            assert(tv.take(r + 1).drop_last() =~= tv.take(r as int));
            assert(tv.take(r + 1).last() == tv[r as int]);
            assert(tv[r as int] == row.deep_view());
        }
        if positive && row.len() > best {
            best = row.len();
        }
    }
    proof {
        assert(tv.take(table.len() as int) =~= tv);
    }
    best
}

} // verus!
