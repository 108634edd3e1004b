//! The evaluator: what an expression yields for one record.
//!
//! Evaluation reads the record and, for `serial()`, the run's counter. It
//! never fails on a missing field: what cannot be found is the empty text.

use crate::json::{
    entry_value, json_object, json_string, record_entries, record_get, record_value, string_value,
    value_as_str, value_get, value_json, value_member, value_text, value_to_string, Entries,
};
use crate::parser::{
    lemma_concat_view, well_formed_expression, Expression, ExpressionView, FieldModifier,
    FieldWithModifiers, ModifierView,
};
use crate::text::{decimal, decimal_string};
use crate::utils::{unescape_string, unescaped};
use indexmap::IndexMap;
use serde_json::Value;
use vstd::prelude::*;
use vstd::string::StringExecFns;

verus! {

/// The state that one run of a script shares between all evaluations: the
/// counter behind `serial()`.
pub struct EvaluatorState {
    pub serial_counter: usize,
}

impl EvaluatorState {
    /// The state at the start of a run: the counter stands at one.
    pub fn new() -> (state: Self)
        ensures
            state.serial_counter == 1,
    {
        Self { serial_counter: 1 }
    }
}

/// The failure of an evaluation. No expression of the language produces
/// one; the type leaves room for kinds of expression that an evaluator
/// does not handle.
#[derive(Debug, Clone, Copy, PartialEq, Eq)]
pub enum EvaluationError {
    /// The evaluator does not handle this kind of expression.
    UnsupportedExpression,
}

// ---------------------------------------------------------------------
// What evaluation yields
// ---------------------------------------------------------------------

/// The result of an evaluation: a text, or a whole record.
pub enum Evaluated {
    Text(Seq<char>),
    Record(Entries),
}

/// A result and the counter after it.
pub struct Outcome {
    pub value: Evaluated,
    pub counter: nat,
}

/// The JSON value of a result.
pub open spec fn value_of(e: Evaluated) -> Value {
    match e {
        Evaluated::Text(text) => json_string(text),
        Evaluated::Record(entries) => json_object(entries),
    }
}

/// What can be read from the JSON value of the result `e`: it is the
/// string with that text, or an object with the members of that record.
pub open spec fn represents(value: Value, e: Evaluated) -> bool {
    match e {
        Evaluated::Text(text) => value_text(value) == Some(text),
        Evaluated::Record(entries) => {
            &&& value_text(value) is None
            &&& forall|key: Seq<char>| #[trigger]
                value_member(value, key) == entry_value(entries, key)
        },
    }
}

/// The text that a result contributes to a concatenation: a record
/// contributes nothing.
pub open spec fn text_of(e: Evaluated) -> Seq<char> {
    match e {
        Evaluated::Text(text) => text,
        Evaluated::Record(_) => Seq::empty(),
    }
}

/// The value reached from `value` through the keys `path[from..]`, each
/// step leading from an object to one of its members.
pub open spec fn descend(value: Value, path: Seq<Seq<char>>, from: int) -> Option<Value>
    decreases path.len() - from,
{
    if 0 <= from < path.len() {
        match value_member(value, path[from]) {
            Some(member) => descend(member, path, from + 1),
            None => None,
        }
    } else {
        Some(value)
    }
}

/// The text of a value that a path has reached: a string stands for
/// itself, every other value for its JSON text.
pub open spec fn leaf_text(value: Value) -> Seq<char> {
    match value_text(value) {
        Some(text) => text,
        None => value_json(value),
    }
}

/// The text of the field that `path` leads to in a record, `None` where a
/// key is missing or a step meets a value that is no object.
pub open spec fn resolve(entries: Entries, path: Seq<Seq<char>>) -> Option<Seq<char>>
    recommends
        path.len() > 0,
{
    match entry_value(entries, path[0]) {
        Some(value) => match descend(value, path, 1) {
            Some(leaf) => Some(leaf_text(leaf)),
            None => None,
        },
        None => None,
    }
}

/// A field that is missing or empty.
pub open spec fn is_blank(value: Option<Seq<char>>) -> bool {
    value is None || value->0.len() == 0
}

/// The first pass over the modifiers: every `Default`, in the order
/// written, replaces a value that is still missing or empty.
pub open spec fn with_defaults(value: Option<Seq<char>>, modifiers: Seq<ModifierView>) -> Option<
    Seq<char>,
>
    decreases modifiers.len(),
{
    if modifiers.len() == 0 {
        value
    } else {
        let before = with_defaults(value, modifiers.drop_last());
        match modifiers.last() {
            ModifierView::Default(text) => if is_blank(before) {
                Some(unescaped(text))
            } else {
                before
            },
            _ => before,
        }
    }
}

/// The second pass over the modifiers: every `Prefix` and `Suffix`, in
/// the order written, is put before or behind the text.
pub open spec fn with_affixes(text: Seq<char>, modifiers: Seq<ModifierView>) -> Seq<char>
    decreases modifiers.len(),
{
    if modifiers.len() == 0 {
        text
    } else {
        let before = with_affixes(text, modifiers.drop_last());
        match modifiers.last() {
            ModifierView::Prefix(prefix) => unescaped(prefix) + before,
            ModifierView::Suffix(suffix) => before + unescaped(suffix),
            ModifierView::Default(_) => before,
        }
    }
}

/// The text of a field after its modifiers: the defaults first; what is
/// still missing or empty then stays empty, anything else gets the
/// prefixes and suffixes.
pub open spec fn modified(value: Option<Seq<char>>, modifiers: Seq<ModifierView>) -> Seq<char> {
    let filled = with_defaults(value, modifiers);
    if is_blank(filled) {
        Seq::empty()
    } else {
        with_affixes(filled->0, modifiers)
    }
}

/// What `e` yields for a record with these entries when the counter
/// stands at `counter`, and where the counter stands afterwards.
pub open spec fn eval(e: ExpressionView, entries: Entries, counter: nat) -> Outcome
    decreases e, 0nat,
{
    match e {
        ExpressionView::Literal(text) => Outcome {
            value: Evaluated::Text(unescaped(text)),
            counter,
        },
        ExpressionView::FieldPath(path) => Outcome {
            value: Evaluated::Text(
                match resolve(entries, path) {
                    Some(text) => text,
                    None => Seq::empty(),
                },
            ),
            counter,
        },
        ExpressionView::FieldWithModifiers(field) => Outcome {
            value: Evaluated::Text(modified(resolve(entries, field.path), field.modifiers)),
            counter,
        },
        ExpressionView::Concat(parts) => {
            let joined = eval_parts(parts, parts.len() as int, entries, counter);
            Outcome { value: Evaluated::Text(joined.0), counter: joined.1 }
        },
        ExpressionView::RawRecord => Outcome { value: Evaluated::Record(entries), counter },
        ExpressionView::Serial => Outcome {
            value: Evaluated::Text(decimal(counter)),
            counter: counter + 1,
        },
    }
}

/// The texts of the first `n` parts, evaluated from left to right and
/// joined without a separator, and the counter behind them. Each part
/// starts from the counter that the part before it left.
pub open spec fn eval_parts(
    parts: Seq<ExpressionView>,
    n: int,
    entries: Entries,
    counter: nat,
) -> (Seq<char>, nat)
    decreases parts, n,
{
    if 0 < n <= parts.len() {
        let before = eval_parts(parts, n - 1, entries, counter);
        let last = eval(parts[n - 1], entries, before.1);
        (before.0 + text_of(last.value), last.counter)
    } else {
        (Seq::empty(), counter)
    }
}

/// The number of times that evaluating `e` reads the counter.
pub open spec fn serial_count(e: ExpressionView) -> nat
    decreases e, 0nat,
{
    match e {
        ExpressionView::Serial => 1,
        ExpressionView::Concat(parts) => serial_count_parts(parts, parts.len() as int),
        _ => 0,
    }
}

/// The number of times that evaluating the first `n` parts reads the
/// counter.
pub open spec fn serial_count_parts(parts: Seq<ExpressionView>, n: int) -> nat
    decreases parts, n,
{
    if 0 < n <= parts.len() {
        serial_count_parts(parts, n - 1) + serial_count(parts[n - 1])
    } else {
        0
    }
}

// ---------------------------------------------------------------------
// The counter
// ---------------------------------------------------------------------

/// Evaluating the first `n` parts moves the counter on by the number of
/// `serial()` among them.
pub proof fn lemma_parts_counter(
    parts: Seq<ExpressionView>,
    n: int,
    entries: Entries,
    counter: nat,
)
    ensures
        eval_parts(parts, n, entries, counter).1 == counter + serial_count_parts(parts, n),
    decreases parts, n,
{
    if 0 < n <= parts.len() {
        lemma_parts_counter(parts, n - 1, entries, counter);
        lemma_counter(parts[n - 1], entries, eval_parts(parts, n - 1, entries, counter).1);
    }
}

/// Evaluating an expression moves the counter on by the number of
/// `serial()` in it: no value of the counter is handed out twice, and
/// none is left out.
pub proof fn lemma_counter(e: ExpressionView, entries: Entries, counter: nat)
    ensures
        eval(e, entries, counter).counter == counter + serial_count(e),
    decreases e, 0nat,
{
    match e {
        ExpressionView::Concat(parts) => {
            lemma_parts_counter(parts, parts.len() as int, entries, counter);
        },
        _ => {},
    }
}

/// The first `n` parts read the counter no more often than all of them.
pub proof fn lemma_serial_count_parts_grows(parts: Seq<ExpressionView>, n: int, m: int)
    requires
        0 <= n <= m <= parts.len(),
    ensures
        serial_count_parts(parts, n) <= serial_count_parts(parts, m),
    decreases m - n,
{
    if n < m {
        lemma_serial_count_parts_grows(parts, n, m - 1);
    }
}

/// Counts the `serial()` in an expression; `None` where the number does
/// not fit in `usize`.
pub fn count_serials(expr: &Expression) -> (n: Option<usize>)
    ensures
        match n {
            Some(k) => k == serial_count(expr@),
            None => serial_count(expr@) > usize::MAX,
        },
    decreases expr,
{
    match expr {
        Expression::Serial => Some(1),
        Expression::Concat(parts) => {
            let ghost views = parts.deep_view();
            proof {
                lemma_concat_view(*parts);
            }
            let mut total: usize = 0;
            let mut i: usize = 0;
            while i < parts.len()
                invariant
                    i <= parts.len(),
                    decreases_to!(expr => *parts),
                    views == parts.deep_view(),
                    expr@ == ExpressionView::Concat(views),
                    total == serial_count_parts(views, i as int),
                decreases parts.len() - i,
            {
                let part = &parts[i];
                proof {
                    assert(views[i as int] == part@);
                    lemma_serial_count_parts_grows(views, i + 1, views.len() as int);
                }
                let more = match count_serials(part) {
                    Some(k) => total.checked_add(k),
                    None => None,
                };
                match more {
                    Some(sum) => {
                        total = sum;
                    },
                    None => {
                        return None;
                    },
                }
                i += 1;
            }
            Some(total)
        },
        _ => Some(0),
    }
}

/// Tells whether `expr` can be evaluated in this state: its field paths
/// are not empty, and the counter has room for every `serial()` in it.
pub fn can_evaluate(expr: &Expression, state: &EvaluatorState) -> (ok: bool)
    ensures
        ok == (well_formed_expression(expr@) && state.serial_counter + serial_count(expr@)
            <= usize::MAX),
{
    if !expr.is_well_formed() {
        return false;
    }
    match count_serials(expr) {
        Some(k) => state.serial_counter.checked_add(k).is_some(),
        None => false,
    }
}

/// The first `n` parts without a `serial()` yield the same text whatever
/// the counter, and leave the counter where it stands.
pub proof fn lemma_parts_without_serial(
    parts: Seq<ExpressionView>,
    n: int,
    entries: Entries,
    counter: nat,
    other: nat,
)
    requires
        serial_count_parts(parts, n) == 0,
    ensures
        eval_parts(parts, n, entries, counter).0 == eval_parts(parts, n, entries, other).0,
        eval_parts(parts, n, entries, counter).1 == counter,
    decreases parts, n,
{
    if 0 < n <= parts.len() {
        lemma_parts_without_serial(parts, n - 1, entries, counter, other);
        lemma_parts_without_serial(parts, n - 1, entries, other, counter);
        lemma_without_serial(parts[n - 1], entries, counter, other);
    }
}

/// An expression without a `serial()` yields the same value whatever the
/// counter, and leaves the counter where it stands: what it yields
/// depends on the expression and the record alone.
pub proof fn lemma_without_serial(e: ExpressionView, entries: Entries, counter: nat, other: nat)
    requires
        serial_count(e) == 0,
    ensures
        eval(e, entries, counter).value == eval(e, entries, other).value,
        eval(e, entries, counter).counter == counter,
    decreases e, 0nat,
{
    match e {
        ExpressionView::Concat(parts) => {
            lemma_parts_without_serial(parts, parts.len() as int, entries, counter, other);
        },
        _ => {},
    }
}

/// An expression made of literals and concatenations only.
pub open spec fn literal_only(e: ExpressionView) -> bool
    decreases e,
{
    match e {
        ExpressionView::Literal(_) => true,
        ExpressionView::Concat(parts) => forall|i: int|
            0 <= i < parts.len() ==> literal_only(#[trigger] parts[i]),
        _ => false,
    }
}

/// The first `n` parts, where all parts are made of literals only, yield
/// the same text for every record and every counter.
pub proof fn lemma_literal_parts(
    parts: Seq<ExpressionView>,
    n: int,
    entries: Entries,
    counter: nat,
    other_entries: Entries,
    other_counter: nat,
)
    requires
        forall|i: int| 0 <= i < parts.len() ==> literal_only(#[trigger] parts[i]),
    ensures
        eval_parts(parts, n, entries, counter).0 == eval_parts(
            parts,
            n,
            other_entries,
            other_counter,
        ).0,
        eval_parts(parts, n, entries, counter).1 == counter,
    decreases parts, n,
{
    if 0 < n <= parts.len() {
        lemma_literal_parts(parts, n - 1, entries, counter, other_entries, other_counter);
        lemma_literal_parts(parts, n - 1, other_entries, other_counter, entries, counter);
        lemma_literal_only(parts[n - 1], entries, counter, other_entries, other_counter);
        lemma_literal_only(parts[n - 1], other_entries, other_counter, entries, counter);
    }
}

/// An expression made of literals and concatenations only yields the
/// same value for every record and every counter, and leaves the counter
/// where it stands.
pub proof fn lemma_literal_only(
    e: ExpressionView,
    entries: Entries,
    counter: nat,
    other_entries: Entries,
    other_counter: nat,
)
    requires
        literal_only(e),
    ensures
        eval(e, entries, counter).value == eval(e, other_entries, other_counter).value,
        eval(e, entries, counter).counter == counter,
    decreases e, 0nat,
{
    match e {
        ExpressionView::Concat(parts) => {
            assert(e->Concat_0 == parts);
            assert(forall|i: int| 0 <= i < parts.len() ==> literal_only(#[trigger] parts[i]));
            lemma_literal_parts(
                parts,
                parts.len() as int,
                entries,
                counter,
                other_entries,
                other_counter,
            );
        },
        _ => {},
    }
}

/// The numerals of `count` numbers from `from` on, one behind the other.
pub open spec fn numerals(from: nat, count: nat) -> Seq<char>
    decreases count,
{
    if count == 0 {
        Seq::empty()
    } else {
        numerals(from, (count - 1) as nat) + decimal((from + count - 1) as nat)
    }
}

/// Parts that are all `serial()` yield the numbers from the counter on,
/// each once and in order, and leave the counter behind the last of
/// them. From the start of a run these are the numbers from one on.
pub proof fn lemma_serials_in_order(
    parts: Seq<ExpressionView>,
    n: int,
    entries: Entries,
    counter: nat,
)
    requires
        0 <= n <= parts.len(),
        forall|i: int| 0 <= i < n ==> (#[trigger] parts[i]) is Serial,
    ensures
        eval_parts(parts, n, entries, counter) == (numerals(counter, n as nat), counter + n as nat),
    decreases n,
{
    if n > 0 {
        lemma_serials_in_order(parts, n - 1, entries, counter);
        let before = eval_parts(parts, n - 1, entries, counter);
        assert(parts[n - 1] == ExpressionView::Serial);
        assert(before.1 == counter + (n - 1) as nat);
        assert(eval(parts[n - 1], entries, before.1).value == Evaluated::Text(decimal(before.1)));
        assert(numerals(counter, n as nat) == numerals(counter, (n - 1) as nat) + decimal(
            (counter + n - 1) as nat,
        ));
    }
}

// ---------------------------------------------------------------------
// The order of the numbers in any expression
// ---------------------------------------------------------------------

/// The leaves of an expression: its parts that are no concatenations, in
/// the order in which they are written, those of nested concatenations
/// in their place.
pub open spec fn leaves(e: ExpressionView) -> Seq<ExpressionView>
    decreases e, 0nat,
{
    match e {
        ExpressionView::Concat(parts) => leaves_of(parts, parts.len() as int),
        _ => seq![e],
    }
}

/// The leaves of the first `n` parts, in order.
pub open spec fn leaves_of(parts: Seq<ExpressionView>, n: int) -> Seq<ExpressionView>
    decreases parts, n,
{
    if 0 < n <= parts.len() {
        leaves_of(parts, n - 1) + leaves(parts[n - 1])
    } else {
        Seq::empty()
    }
}

/// What the first `n` parts yield does not depend on the parts behind
/// them.
pub proof fn lemma_parts_prefix(
    front: Seq<ExpressionView>,
    back: Seq<ExpressionView>,
    n: int,
    entries: Entries,
    counter: nat,
)
    requires
        0 <= n <= front.len(),
    ensures
        eval_parts(front + back, n, entries, counter) == eval_parts(front, n, entries, counter),
        serial_count_parts(front + back, n) == serial_count_parts(front, n),
    decreases n,
{
    if n > 0 {
        lemma_parts_prefix(front, back, n - 1, entries, counter);
        assert((front + back)[n - 1] == front[n - 1]);
    }
}

/// Evaluating two lists of parts one behind the other is evaluating the
/// first, then the second from the counter that the first has left.
pub proof fn lemma_parts_joined(
    front: Seq<ExpressionView>,
    back: Seq<ExpressionView>,
    m: int,
    entries: Entries,
    counter: nat,
)
    requires
        0 <= m <= back.len(),
    ensures
        ({
            let first = eval_parts(front, front.len() as int, entries, counter);
            let second = eval_parts(back, m, entries, first.1);
            eval_parts(front + back, front.len() + m, entries, counter) == (
                first.0 + second.0,
                second.1,
            )
        }),
    decreases m,
{
    let first = eval_parts(front, front.len() as int, entries, counter);
    if m == 0 {
        lemma_parts_prefix(front, back, front.len() as int, entries, counter);
        assert(first.0 + Seq::<char>::empty() =~= first.0);
    } else {
        lemma_parts_joined(front, back, m - 1, entries, counter);
        assert((front + back)[front.len() + m - 1] == back[m - 1]);
        let before = eval_parts(back, m - 1, entries, first.1);
        let last = eval(back[m - 1], entries, before.1);
        assert((first.0 + before.0) + text_of(last.value) =~= first.0 + (before.0 + text_of(
            last.value,
        )));
    }
}

/// Evaluating the first `n` parts is evaluating their leaves from left
/// to right.
pub proof fn lemma_leaves_of_parts(
    parts: Seq<ExpressionView>,
    n: int,
    entries: Entries,
    counter: nat,
)
    ensures
        eval_parts(
            leaves_of(parts, n),
            leaves_of(parts, n).len() as int,
            entries,
            counter,
        ) == eval_parts(parts, n, entries, counter),
        forall|i: int|
            0 <= i < leaves_of(parts, n).len() ==> !((#[trigger] leaves_of(parts, n)[i])
                is Concat),
    decreases parts, n,
{
    if 0 < n <= parts.len() {
        let front = leaves_of(parts, n - 1);
        let back = leaves(parts[n - 1]);
        lemma_leaves_of_parts(parts, n - 1, entries, counter);
        let before = eval_parts(parts, n - 1, entries, counter);
        lemma_leaves(parts[n - 1], entries, before.1);
        lemma_parts_joined(front, back, back.len() as int, entries, counter);
        assert forall|i: int| 0 <= i < (front + back).len() implies !((#[trigger] (front
            + back)[i]) is Concat) by {
            if i < front.len() {
                assert((front + back)[i] == front[i]);
            } else {
                assert((front + back)[i] == back[i - front.len()]);
            }
        }
    }
}

/// Evaluating an expression is evaluating its leaves from left to right:
/// the text is the leaves' texts joined, and the counter ends where the
/// last leaf leaves it. No leaf is a concatenation.
pub proof fn lemma_leaves(e: ExpressionView, entries: Entries, counter: nat)
    ensures
        eval_parts(leaves(e), leaves(e).len() as int, entries, counter) == (
            text_of(eval(e, entries, counter).value),
            eval(e, entries, counter).counter,
        ),
        forall|i: int| 0 <= i < leaves(e).len() ==> !((#[trigger] leaves(e)[i]) is Concat),
    decreases e, 0nat,
{
    match e {
        ExpressionView::Concat(parts) => {
            lemma_leaves_of_parts(parts, parts.len() as int, entries, counter);
        },
        _ => {
            let one = seq![e];
            assert(one[0] == e);
            assert(eval_parts(one, 0, entries, counter) == (Seq::<char>::empty(), counter));
            assert(Seq::<char>::empty() + text_of(eval(e, entries, counter).value) =~= text_of(
                eval(e, entries, counter).value,
            ));
        },
    }
}

/// The numbers that the `serial()` of any expression yield, in the order
/// of the tree from left to right.
///
/// Evaluating `e` from the counter `c` is evaluating its leaves in
/// order. The leaf with index `i` is evaluated at the counter `c` plus
/// the number of `serial()` among the leaves before it; a `serial()`
/// there yields the numeral of that counter, and the next leaf starts one
/// higher. So the `serial()` of `e`, taken from left to right, yield `c`,
/// `c + 1`, and so on up to `c + k - 1` for the `k` of them: none is
/// handed out twice, none is left out, and the counter ends at `c + k`.
pub proof fn lemma_serials_in_tree_order(e: ExpressionView, entries: Entries, c: nat)
    ensures
        eval_parts(leaves(e), leaves(e).len() as int, entries, c) == (
            text_of(eval(e, entries, c).value),
            eval(e, entries, c).counter,
        ),
        serial_count_parts(leaves(e), leaves(e).len() as int) == serial_count(e),
        eval(e, entries, c).counter == c + serial_count(e),
        forall|i: int|
            0 <= i < leaves(e).len() ==> {
                let before = #[trigger] serial_count_parts(leaves(e), i);
                let leaf = leaves(e)[i];
                &&& eval_parts(leaves(e), i, entries, c).1 == c + before
                &&& leaf is Serial ==> {
                    &&& eval(leaf, entries, c + before).value == Evaluated::Text(
                        decimal(c + before),
                    )
                    &&& serial_count_parts(leaves(e), i + 1) == before + 1
                }
                &&& !(leaf is Serial) ==> {
                    &&& eval(leaf, entries, c + before).counter == c + before
                    &&& serial_count_parts(leaves(e), i + 1) == before
                }
            },
{
    let ls = leaves(e);
    lemma_leaves(e, entries, c);
    lemma_counter(e, entries, c);
    lemma_parts_counter(ls, ls.len() as int, entries, c);
    assert forall|i: int| 0 <= i < ls.len() implies {
        let before = #[trigger] serial_count_parts(ls, i);
        let leaf = ls[i];
        &&& eval_parts(ls, i, entries, c).1 == c + before
        &&& leaf is Serial ==> {
            &&& eval(leaf, entries, c + before).value == Evaluated::Text(decimal(c + before))
            &&& serial_count_parts(ls, i + 1) == before + 1
        }
        &&& !(leaf is Serial) ==> {
            &&& eval(leaf, entries, c + before).counter == c + before
            &&& serial_count_parts(ls, i + 1) == before
        }
    } by {
        lemma_parts_counter(ls, i, entries, c);
        assert(!(ls[i] is Concat));
        lemma_counter(ls[i], entries, c + serial_count_parts(ls, i));
    }
}

// ---------------------------------------------------------------------
// Modifiers
// ---------------------------------------------------------------------

/// A default never replaces a value that is there and not empty.
pub proof fn lemma_defaults_keep_value(text: Seq<char>, modifiers: Seq<ModifierView>)
    requires
        text.len() > 0,
    ensures
        with_defaults(Some(text), modifiers) == Some(text),
    decreases modifiers.len(),
{
    if modifiers.len() > 0 {
        lemma_defaults_keep_value(text, modifiers.drop_last());
    }
}

/// Where no modifier is a `Default`, the first pass changes nothing.
pub proof fn lemma_no_default(value: Option<Seq<char>>, modifiers: Seq<ModifierView>)
    requires
        forall|i: int| 0 <= i < modifiers.len() ==> !((#[trigger] modifiers[i]) is Default),
    ensures
        with_defaults(value, modifiers) == value,
    decreases modifiers.len(),
{
    if modifiers.len() > 0 {
        let front = modifiers.drop_last();
        assert forall|i: int| 0 <= i < front.len() implies !((#[trigger] front[i]) is Default) by {
            assert(front[i] == modifiers[i]);
        }
        lemma_no_default(value, front);
        assert(modifiers.last() == modifiers[modifiers.len() - 1]);
    }
}

/// Prefixes and suffixes never apply to a field that is missing or
/// empty: without a default among the modifiers, the result is empty.
pub proof fn lemma_blank_stays_empty(value: Option<Seq<char>>, modifiers: Seq<ModifierView>)
    requires
        is_blank(value),
        forall|i: int| 0 <= i < modifiers.len() ==> !((#[trigger] modifiers[i]) is Default),
    ensures
        modified(value, modifiers) == Seq::<char>::empty(),
{
    lemma_no_default(value, modifiers);
}

/// A single default gives its text for a field that is missing or empty,
/// and the field's own text otherwise.
pub proof fn lemma_single_default(value: Option<Seq<char>>, text: Seq<char>)
    ensures
        modified(value, seq![ModifierView::Default(text)]) == if is_blank(value) {
            unescaped(text)
        } else {
            value->0
        },
{
    let modifiers = seq![ModifierView::Default(text)];
    assert(modifiers.drop_last() =~= Seq::empty());
    assert(modifiers.last() == ModifierView::Default(text));
    assert(with_defaults(value, modifiers.drop_last()) == value);
    assert(with_affixes(unescaped(text), modifiers.drop_last()) == unescaped(text));
    if !is_blank(value) {
        assert(with_affixes(value->0, modifiers.drop_last()) == value->0);
    }
}

// ---------------------------------------------------------------------
// Evaluation
// ---------------------------------------------------------------------

/// The text of a string that may be missing.
pub open spec fn text_view(text: Option<String>) -> Option<Seq<char>> {
    match text {
        Some(s) => Some(s@),
        None => None,
    }
}

/// Follows `path` into the record and gives the text of what it reaches.
fn get_nested_value_as_string(record: &IndexMap<String, Value>, path: &Vec<String>) -> (found:
    Option<String>)
    requires
        path.len() > 0,
    ensures
        text_view(found) == resolve(record_entries(*record), path.deep_view()),
{
    let ghost keys = path.deep_view();
    let ghost entries = record_entries(*record);
    assert(keys[0] == path[0]@);
    let first: &Value = match record_get(record, &path[0]) {
        Some(value) => value,
        None => {
            return None;
        },
    };
    let mut current: &Value = first;
    let mut i: usize = 1;
    while i < path.len()
        invariant
            1 <= i <= path.len(),
            keys == path.deep_view(),
            entry_value(record_entries(*record), keys[0]) == Some(*first),
            descend(*first, keys, 1) == descend(*current, keys, i as int),
        decreases path.len() - i,
    {
        assert(keys[i as int] == path[i as int]@);
        match value_get(current, &path[i]) {
            Some(member) => {
                current = member;
            },
            None => {
                return None;
            },
        }
        i += 1;
    }
    match value_as_str(current) {
        Some(text) => Some(text.to_owned()),
        None => Some(value_to_string(current)),
    }
}

/// The text of a field with modifiers.
fn evaluate_field_with_modifiers(field: &FieldWithModifiers, record: &IndexMap<String, Value>) -> (r:
    Result<String, EvaluationError>)
    requires
        field.path.len() > 0,
    ensures
        r is Ok,
        r->Ok_0@ == modified(
            resolve(record_entries(*record), field.path.deep_view()),
            field.modifiers.deep_view(),
        ),
{
    let ghost modifiers = field.modifiers.deep_view();
    let ghost found = resolve(record_entries(*record), field.path.deep_view());
    let mut raw_value: Option<String> = get_nested_value_as_string(record, &field.path);

    // first the defaults
    let mut i: usize = 0;
    while i < field.modifiers.len()
        invariant
            i <= field.modifiers.len(),
            modifiers == field.modifiers.deep_view(),
            text_view(raw_value) == with_defaults(found, modifiers.take(i as int)),
        decreases field.modifiers.len() - i,
    {
        proof {
            assert(modifiers.take(i + 1).drop_last() =~= modifiers.take(i as int));
            assert(modifiers.take(i + 1).last() == field.modifiers[i as int]@);
        }
        match &field.modifiers[i] {
            FieldModifier::Default(text) => {
                let blank = match &raw_value {
                    None => true,
                    Some(value) => value.as_str().is_empty(),
                };
                if blank {
                    raw_value = Some(unescape_string(text.as_str()));
                }
            },
            _ => {},
        }
        i += 1;
    }
    proof {
        assert(modifiers.take(modifiers.len() as int) =~= modifiers);
    }
    let mut value: String = match raw_value {
        Some(value) => value,
        None => {
            return Ok(String::new());
        },
    };
    if value.as_str().is_empty() {
        return Ok(String::new());
    }
    let ghost filled = value@;

    // then the prefixes and suffixes
    let mut i: usize = 0;
    while i < field.modifiers.len()
        invariant
            i <= field.modifiers.len(),
            modifiers == field.modifiers.deep_view(),
            value@ == with_affixes(filled, modifiers.take(i as int)),
        decreases field.modifiers.len() - i,
    {
        proof {
            assert(modifiers.take(i + 1).drop_last() =~= modifiers.take(i as int));
            assert(modifiers.take(i + 1).last() == field.modifiers[i as int]@);
        }
        match &field.modifiers[i] {
            FieldModifier::Prefix(prefix) => {
                let mut joined = unescape_string(prefix.as_str());
                joined.append(value.as_str());
                value = joined;
            },
            FieldModifier::Suffix(suffix) => {
                let end = unescape_string(suffix.as_str());
                value.append(end.as_str());
            },
            FieldModifier::Default(_) => {},
        }
        i += 1;
    }
    proof {
        assert(modifiers.take(modifiers.len() as int) =~= modifiers);
    }
    Ok(value)
}

/// Evaluates `expr` for `record`.
///
/// The result is a JSON string for every expression but `raw()`, which
/// gives the record as a JSON object. `serial()` gives the counter as a
/// decimal numeral and adds one to it; nothing else changes the state.
/// Every expression of the language evaluates, so the result is never an
/// error.
pub fn evaluate_expression(
    expr: &Expression,
    record: &IndexMap<String, Value>,
    state: &mut EvaluatorState,
) -> (r: Result<Value, EvaluationError>)
    requires
        well_formed_expression(expr@),
        old(state).serial_counter + serial_count(expr@) <= usize::MAX,
    ensures
        r is Ok,
        r->Ok_0 == value_of(
            eval(expr@, record_entries(*record), old(state).serial_counter as nat).value,
        ),
        represents(
            r->Ok_0,
            eval(expr@, record_entries(*record), old(state).serial_counter as nat).value,
        ),
        final(state).serial_counter == eval(
            expr@,
            record_entries(*record),
            old(state).serial_counter as nat,
        ).counter,
        final(state).serial_counter == old(state).serial_counter + serial_count(expr@),
    decreases expr,
{
    let ghost entries = record_entries(*record);
    let ghost start = state.serial_counter as nat;
    proof {
        lemma_counter(expr@, entries, start);
    }
    match expr {
        Expression::Literal(text) => Ok(string_value(unescape_string(text.as_str()))),
        Expression::FieldPath(path) => {
            let text = match get_nested_value_as_string(record, path) {
                Some(text) => text,
                None => String::new(),
            };
            Ok(string_value(text))
        },
        Expression::FieldWithModifiers(field) => {
            match evaluate_field_with_modifiers(field, record) {
                Ok(text) => Ok(string_value(text)),
                Err(e) => Err(e),
            }
        },
        Expression::Concat(parts) => {
            let ghost views = parts.deep_view();
            proof {
                lemma_concat_view(*parts);
            }
            let mut result = String::new();
            let mut i: usize = 0;
            while i < parts.len()
                invariant
                    i <= parts.len(),
                    decreases_to!(expr => *parts),
                    views == parts.deep_view(),
                    entries == record_entries(*record),
                    forall|k: int| 0 <= k < views.len() ==> well_formed_expression(#[trigger] views[k]),
                    start + serial_count_parts(views, views.len() as int) <= usize::MAX,
                    (result@, state.serial_counter as nat) == eval_parts(
                        views,
                        i as int,
                        entries,
                        start,
                    ),
                decreases parts.len() - i,
            {
                let part = &parts[i];
                proof {
                    assert(views[i as int] == part@);
                    lemma_parts_counter(views, i as int, entries, start);
                    lemma_serial_count_parts_grows(views, i + 1, views.len() as int);
                }
                let value = match evaluate_expression(part, record, state) {
                    Ok(value) => value,
                    Err(e) => {
                        return Err(e);
                    },
                };
                match value_as_str(&value) {
                    Some(text) => {
                        result.append(text);
                    },
                    None => {
                        assert(result@ + Seq::<char>::empty() =~= result@);
                    },
                }
                i += 1;
            }
            Ok(string_value(result))
        },
        Expression::RawRecord => Ok(record_value(record)),
        Expression::Serial => {
            let text = decimal_string(state.serial_counter);
            state.serial_counter += 1;
            Ok(string_value(text))
        },
    }
}

} // verus!
