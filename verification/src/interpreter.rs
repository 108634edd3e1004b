//! The interpreter: what each command of a script does to the records.
//!
//! The interpreter reads and writes no file and prints nothing. For each
//! command it changes its own state and answers with an [`Action`] that
//! tells the caller what to do outside: read the input file and hand its
//! lines to [`Interpreter::load`], or print lines. At the end of the
//! script [`Interpreter::finish`] gives the lines of the output file.

use crate::evaluator::{
    count_serials, eval, evaluate_expression, lemma_counter, lemma_without_serial, serial_count,
    value_of, Evaluated, EvaluationError, EvaluatorState,
};
use crate::text::decimal;
use crate::json::{
    entries_json, error_message, json_string, key_index, lemma_key_index, line_entries,
    record_entries, record_from_line, record_insert, record_new, record_to_line, upsert, Entries,
};
use crate::parser::{
    well_formed_assignments, well_formed_command, well_formed_expression, Command, CommandView,
    Expression, ExpressionView,
};
use indexmap::IndexMap;
use serde_json::Value;
use vstd::prelude::*;

verus! {

/// What the caller has to do after a command.
#[derive(Debug, Clone, PartialEq)]
pub enum Action {
    /// Nothing.
    Nothing,
    /// Read the lines of the file at this path and hand them to
    /// [`Interpreter::load`].
    ReadInput(String),
    /// Write these lines to the standard output.
    Print(Vec<String>),
    /// Warn that there is no record with this line number.
    WarnOutOfRange(usize),
}

/// Why a run ends early.
#[derive(Debug, Clone, PartialEq)]
pub enum RuntimeError {
    /// The line with this index (from zero) of the input is no JSON object.
    MalformedLine { line: usize, message: String },
    /// The record with this index (from zero) cannot be written as JSON.
    /// No record of this library's kind fails so; the variant is what an
    /// error of the JSON writer would be turned into.
    Serialization { record: usize, message: String },
    /// An expression could not be evaluated.
    Evaluation(EvaluationError),
}

/// The output file of a run: where to write, and what.
#[derive(Debug, Clone, PartialEq)]
pub struct OutputFile {
    pub path: String,
    pub lines: Vec<String>,
}

/// The state of a run between two commands.
pub struct Interpreter {
    input_file_path: Option<String>,
    output_file_path: Option<String>,
    jsonl_data: Vec<IndexMap<String, Value>>,
    transformed_data: Option<Vec<IndexMap<String, Value>>>,
}

// ---------------------------------------------------------------------
// Mathematical values
// ---------------------------------------------------------------------

/// The mathematical value of an [`Action`].
pub enum ActionView {
    Nothing,
    ReadInput(Seq<char>),
    Print(Seq<Seq<char>>),
    WarnOutOfRange(nat),
}

impl View for Action {
    type V = ActionView;

    open spec fn view(&self) -> ActionView {
        match self {
            Action::Nothing => ActionView::Nothing,
            Action::ReadInput(path) => ActionView::ReadInput(path@),
            Action::Print(lines) => ActionView::Print(lines.deep_view()),
            Action::WarnOutOfRange(n) => ActionView::WarnOutOfRange(*n as nat),
        }
    }
}

/// The state of a run: the paths named so far, the records of the input
/// that was loaded last, and the records that the last transform made, if
/// a transform has run.
pub struct InterpreterView {
    pub input_path: Option<Seq<char>>,
    pub output_path: Option<Seq<char>>,
    pub records: Seq<Entries>,
    pub transformed: Option<Seq<Entries>>,
}

/// The entries of each record, in order.
pub open spec fn all_entries(records: Seq<IndexMap<String, Value>>) -> Seq<Entries> {
    Seq::new(records.len(), |i: int| record_entries(records[i]))
}

/// The text of a string that may be missing.
pub open spec fn path_view(path: Option<String>) -> Option<Seq<char>> {
    match path {
        Some(p) => Some(p@),
        None => None,
    }
}

impl View for Interpreter {
    type V = InterpreterView;

    closed spec fn view(&self) -> InterpreterView {
        InterpreterView {
            input_path: path_view(self.input_file_path),
            output_path: path_view(self.output_file_path),
            records: all_entries(self.jsonl_data@),
            transformed: match self.transformed_data {
                Some(records) => Some(all_entries(records@)),
                None => None,
            },
        }
    }
}

// ---------------------------------------------------------------------
// Sequences of results that may be missing
// ---------------------------------------------------------------------

/// The index of the first item that is missing, if one is.
pub open spec fn first_missing<T>(items: Seq<Option<T>>) -> Option<int>
    decreases items.len(),
{
    if items.len() == 0 {
        None
    } else {
        match first_missing(items.drop_last()) {
            Some(i) => Some(i),
            None => if items.last() is None {
                Some(items.len() - 1)
            } else {
                None
            },
        }
    }
}

/// The items themselves, where none is missing.
pub open spec fn all_present<T>(items: Seq<Option<T>>) -> Seq<T> {
    Seq::new(items.len(), |i: int| items[i]->0)
}

/// The JSON text of each record, in order.
pub open spec fn json_lines(records: Seq<Entries>) -> Seq<Seq<char>> {
    Seq::new(records.len(), |i: int| entries_json(records[i]))
}

/// The record that each line denotes, `None` for a line that is no JSON
/// object.
pub open spec fn parsed_lines(lines: Seq<Seq<char>>) -> Seq<Option<Entries>> {
    Seq::new(lines.len(), |i: int| line_entries(lines[i]))
}

// ---------------------------------------------------------------------
// Transforms
// ---------------------------------------------------------------------

/// The number of times that the first `n` assignments read the counter,
/// for one record.
pub open spec fn assignment_serials(assignments: Seq<(Seq<char>, ExpressionView)>, n: int) -> nat
    decreases n,
{
    if 0 < n <= assignments.len() {
        assignment_serials(assignments, n - 1) + serial_count(assignments[n - 1].1)
    } else {
        0
    }
}

/// The record that the first `n` assignments make of the record with
/// these entries, and the counter behind them. Each assignment stores
/// what its expression yields under its name: in the place of an earlier
/// assignment to the same name, or else at the end.
pub open spec fn transform_record(
    assignments: Seq<(Seq<char>, ExpressionView)>,
    n: int,
    entries: Entries,
    counter: nat,
) -> (Entries, nat)
    decreases n,
{
    if 0 < n <= assignments.len() {
        let before = transform_record(assignments, n - 1, entries, counter);
        let out = eval(assignments[n - 1].1, entries, before.1);
        (upsert(before.0, assignments[n - 1].0, value_of(out.value)), out.counter)
    } else {
        (Seq::empty(), counter)
    }
}

/// The records that the assignments make of the first `n` records, one
/// for one and in their order, and the counter behind them. The counter
/// runs on from each record to the next.
pub open spec fn transform_records(
    assignments: Seq<(Seq<char>, ExpressionView)>,
    records: Seq<Entries>,
    n: int,
    counter: nat,
) -> (Seq<Entries>, nat)
    decreases n,
{
    if 0 < n <= records.len() {
        let before = transform_records(assignments, records, n - 1, counter);
        let one = transform_record(
            assignments,
            assignments.len() as int,
            records[n - 1],
            before.1,
        );
        (before.0.push(one.0), one.1)
    } else {
        (Seq::empty(), counter)
    }
}

/// The first `n` assignments move the counter on by the number of
/// `serial()` in them.
pub proof fn lemma_transform_record_counter(
    assignments: Seq<(Seq<char>, ExpressionView)>,
    n: int,
    entries: Entries,
    counter: nat,
)
    ensures
        transform_record(assignments, n, entries, counter).1 == counter + assignment_serials(
            assignments,
            n,
        ),
    decreases n,
{
    if 0 < n <= assignments.len() {
        lemma_transform_record_counter(assignments, n - 1, entries, counter);
        lemma_counter(
            assignments[n - 1].1,
            entries,
            transform_record(assignments, n - 1, entries, counter).1,
        );
    }
}

/// A transform of `n` records makes `n` records and moves the counter on
/// by `n` times the number of `serial()` in its assignments.
pub proof fn lemma_transform_records_counter(
    assignments: Seq<(Seq<char>, ExpressionView)>,
    records: Seq<Entries>,
    n: int,
    counter: nat,
)
    requires
        0 <= n <= records.len(),
    ensures
        transform_records(assignments, records, n, counter).0.len() == n,
        transform_records(assignments, records, n, counter).1 == counter + n * assignment_serials(
            assignments,
            assignments.len() as int,
        ),
    decreases n,
{
    let per_record = assignment_serials(assignments, assignments.len() as int);
    if 0 < n {
        lemma_transform_records_counter(assignments, records, n - 1, counter);
        lemma_transform_record_counter(
            assignments,
            assignments.len() as int,
            records[n - 1],
            transform_records(assignments, records, n - 1, counter).1,
        );
        assert((n - 1) * per_record + per_record == n * per_record) by (nonlinear_arith);
    } else {
        assert(0 * per_record == 0) by (nonlinear_arith);
    }
}

/// Where each expression of a transform starts counting: the assignment
/// with index `j`, for the record with index `i`, is evaluated at the
/// counter before the transform, plus what the `i` records before have
/// used, plus what the `j` assignments before it have used for this
/// record. With the order inside one expression this fixes the order of
/// all numbers of a run: record by record, assignment by assignment,
/// from left to right.
pub proof fn lemma_transform_counters(
    assignments: Seq<(Seq<char>, ExpressionView)>,
    records: Seq<Entries>,
    i: int,
    j: int,
    counter: nat,
)
    requires
        0 <= i < records.len(),
        0 <= j <= assignments.len(),
    ensures
        transform_record(
            assignments,
            j,
            records[i],
            transform_records(assignments, records, i, counter).1,
        ).1 == counter + i * assignment_serials(assignments, assignments.len() as int)
            + assignment_serials(assignments, j),
{
    lemma_transform_records_counter(assignments, records, i, counter);
    lemma_transform_record_counter(
        assignments,
        j,
        records[i],
        transform_records(assignments, records, i, counter).1,
    );
}

/// The first `n` assignments read the counter no more often than the
/// first `m`, for `n <= m`.
pub proof fn lemma_assignment_serials_grows(
    assignments: Seq<(Seq<char>, ExpressionView)>,
    n: int,
    m: int,
)
    requires
        0 <= n <= m <= assignments.len(),
    ensures
        assignment_serials(assignments, n) <= assignment_serials(assignments, m),
    decreases m - n,
{
    if n < m {
        lemma_assignment_serials_grows(assignments, n, m - 1);
    }
}

/// Assignments without a `serial()` make the same record whatever the
/// counter, and leave the counter where it stands.
pub proof fn lemma_transform_record_without_serial(
    assignments: Seq<(Seq<char>, ExpressionView)>,
    n: int,
    entries: Entries,
    counter: nat,
    other: nat,
)
    requires
        0 <= n <= assignments.len(),
        assignment_serials(assignments, assignments.len() as int) == 0,
    ensures
        transform_record(assignments, n, entries, counter).0 == transform_record(
            assignments,
            n,
            entries,
            other,
        ).0,
        transform_record(assignments, n, entries, counter).1 == counter,
    decreases n,
{
    if 0 < n {
        lemma_assignment_serials_grows(assignments, n, assignments.len() as int);
        lemma_assignment_serials_grows(assignments, n - 1, n);
        lemma_transform_record_without_serial(assignments, n - 1, entries, counter, other);
        lemma_transform_record_without_serial(assignments, n - 1, entries, other, counter);
        lemma_without_serial(assignments[n - 1].1, entries, counter, other);
    }
}

/// A transform whose assignments hold no `serial()` makes the same
/// records whatever the counter, and leaves the counter where it stands:
/// its result depends on the assignments and the input records alone.
pub proof fn lemma_transform_without_serial(
    assignments: Seq<(Seq<char>, ExpressionView)>,
    records: Seq<Entries>,
    n: int,
    counter: nat,
    other: nat,
)
    requires
        0 <= n <= records.len(),
        assignment_serials(assignments, assignments.len() as int) == 0,
    ensures
        transform_records(assignments, records, n, counter).0 == transform_records(
            assignments,
            records,
            n,
            other,
        ).0,
        transform_records(assignments, records, n, counter).1 == counter,
    decreases n,
{
    if 0 < n {
        lemma_transform_without_serial(assignments, records, n - 1, counter, other);
        lemma_transform_without_serial(assignments, records, n - 1, other, counter);
        lemma_transform_record_without_serial(
            assignments,
            assignments.len() as int,
            records[n - 1],
            counter,
            other,
        );
    }
}

/// The assignment `name = serial();` numbers the records: the record
/// with index `i` gets the numeral of the counter plus `i`. From the
/// start of a run the records are numbered from one on, in their order.
pub proof fn lemma_serial_numbers_records(
    name: Seq<char>,
    records: Seq<Entries>,
    n: int,
    counter: nat,
)
    requires
        0 <= n <= records.len(),
    ensures
        transform_records(seq![(name, ExpressionView::Serial)], records, n, counter).1 == counter
            + n,
        transform_records(seq![(name, ExpressionView::Serial)], records, n, counter).0.len() == n,
        forall|i: int|
            0 <= i < n ==> (#[trigger] transform_records(
                seq![(name, ExpressionView::Serial)],
                records,
                n,
                counter,
            ).0[i]) == seq![(name, json_string(decimal((counter + i) as nat)))],
    decreases n,
{
    let assignments = seq![(name, ExpressionView::Serial)];
    if 0 < n {
        lemma_serial_numbers_records(name, records, n - 1, counter);
        let before = transform_records(assignments, records, n - 1, counter);
        let entries = records[n - 1];
        assert(transform_record(assignments, 0, entries, before.1) == (
            Seq::<(Seq<char>, Value)>::empty(),
            before.1,
        ));
        let one = transform_record(assignments, 1, entries, before.1);
        assert(assignments[0] == (name, ExpressionView::Serial));
        assert(eval(ExpressionView::Serial, entries, before.1).value == Evaluated::Text(
            decimal(before.1),
        ));
        assert(key_index(Seq::<(Seq<char>, Value)>::empty(), name) is None);
        assert(one.0 =~= seq![(name, json_string(decimal(before.1)))]);
        let after = transform_records(assignments, records, n, counter);
        assert(after.0 == before.0.push(one.0));
        assert forall|i: int| 0 <= i < n implies (#[trigger] after.0[i]) == seq![
            (name, json_string(decimal((counter + i) as nat))),
        ] by {
            if i < n - 1 {
                assert(after.0[i] == before.0[i]);
            }
        }
    }
}

/// No name is the target of two assignments.
pub open spec fn distinct_names(assignments: Seq<(Seq<char>, ExpressionView)>) -> bool {
    forall|i: int, j: int|
        0 <= i < j < assignments.len() ==> (#[trigger] assignments[i]).0 != (
        #[trigger] assignments[j]).0
}

/// Where no name is assigned twice, the record that a transform makes
/// has one entry for each assignment, under the assignment's name and in
/// the order of the assignments, whatever the order of the keys in the
/// input record.
pub proof fn lemma_transform_record_keys(
    assignments: Seq<(Seq<char>, ExpressionView)>,
    n: int,
    entries: Entries,
    counter: nat,
)
    requires
        0 <= n <= assignments.len(),
        distinct_names(assignments),
    ensures
        transform_record(assignments, n, entries, counter).0.len() == n,
        forall|i: int|
            0 <= i < n ==> (#[trigger] transform_record(assignments, n, entries, counter).0[i]).0
                == assignments[i].0,
    decreases n,
{
    if 0 < n {
        lemma_transform_record_keys(assignments, n - 1, entries, counter);
        let before = transform_record(assignments, n - 1, entries, counter);
        let name = assignments[n - 1].0;
        lemma_key_index(before.0, name);
        if key_index(before.0, name) is Some {
            let i = key_index(before.0, name)->0;
            assert(before.0[i].0 == assignments[i].0);
            assert(assignments[i].0 != assignments[n - 1].0);
        }
    }
}

/// Builds the record that the assignments make of `record`.
fn transform_one(
    record: &IndexMap<String, Value>,
    assignments: &Vec<(String, Expression)>,
    state: &mut EvaluatorState,
) -> (r: Result<IndexMap<String, Value>, EvaluationError>)
    requires
        well_formed_assignments(assignments.deep_view()),
        old(state).serial_counter + assignment_serials(
            assignments.deep_view(),
            assignments.len() as int,
        ) <= usize::MAX,
    ensures
        r is Ok,
        (record_entries(r->Ok_0), final(state).serial_counter as nat) == transform_record(
            assignments.deep_view(),
            assignments.len() as int,
            record_entries(*record),
            old(state).serial_counter as nat,
        ),
{
    let ghost list = assignments.deep_view();
    let ghost entries = record_entries(*record);
    let ghost start = state.serial_counter as nat;
    let mut new_record = record_new();
    let mut i: usize = 0;
    while i < assignments.len()
        invariant
            i <= assignments.len(),
            list == assignments.deep_view(),
            entries == record_entries(*record),
            well_formed_assignments(list),
            start + assignment_serials(list, list.len() as int) <= usize::MAX,
            (record_entries(new_record), state.serial_counter as nat) == transform_record(
                list,
                i as int,
                entries,
                start,
            ),
        decreases assignments.len() - i,
    {
        let (field_name, expr) = &assignments[i];
        proof {
            assert(list[i as int] == (field_name@, expr@));
            lemma_transform_record_counter(list, i as int, entries, start);
            lemma_assignment_serials_grows(list, i + 1, list.len() as int);
        }
        let value = match evaluate_expression(expr, record, state) {
            Ok(value) => value,
            Err(e) => {
                return Err(e);
            },
        };
        record_insert(&mut new_record, field_name.clone(), value);
        i += 1;
    }
    Ok(new_record)
}

/// Applies the assignments of a transform to every record.
///
/// The result has one record for each record of the input, in the same
/// order. Each new record holds what the assignments' expressions yield
/// for the old one, under the assignments' names and in their order. The
/// counter of `state` runs through all records.
pub fn apply_transform(
    records: &Vec<IndexMap<String, Value>>,
    assignments: &Vec<(String, Expression)>,
    state: &mut EvaluatorState,
) -> (r: Result<Vec<IndexMap<String, Value>>, EvaluationError>)
    requires
        well_formed_assignments(assignments.deep_view()),
        old(state).serial_counter + records.len() * assignment_serials(
            assignments.deep_view(),
            assignments.len() as int,
        ) <= usize::MAX,
    ensures
        r is Ok,
        (all_entries(r->Ok_0@), final(state).serial_counter as nat) == transform_records(
            assignments.deep_view(),
            all_entries(records@),
            records.len() as int,
            old(state).serial_counter as nat,
        ),
{
    let ghost list = assignments.deep_view();
    let ghost input = all_entries(records@);
    let ghost start = state.serial_counter as nat;
    let ghost per_record = assignment_serials(list, list.len() as int);
    let mut output: Vec<IndexMap<String, Value>> = Vec::new();
    let mut i: usize = 0;
    proof {
        assert(all_entries(output@) =~= Seq::empty());
    }
    while i < records.len()
        invariant
            i <= records.len(),
            list == assignments.deep_view(),
            input == all_entries(records@),
            per_record == assignment_serials(list, list.len() as int),
            well_formed_assignments(list),
            start + records.len() * per_record <= usize::MAX,
            (all_entries(output@), state.serial_counter as nat) == transform_records(
                list,
                input,
                i as int,
                start,
            ),
        decreases records.len() - i,
    {
        let ghost before = all_entries(output@);
        proof {
            lemma_transform_records_counter(list, input, i as int, start);
            assert(i * per_record + per_record <= records.len() * per_record)
                by (nonlinear_arith)
                requires
                    i < records.len(),
                    per_record >= 0,
            ;
            assert(input[i as int] == record_entries(records[i as int]));
        }
        let new_record = match transform_one(&records[i], assignments, state) {
            Ok(record) => record,
            Err(e) => {
                return Err(e);
            },
        };
        output.push(new_record);
        i += 1;
        proof {
            assert(all_entries(output@) =~= before.push(record_entries(new_record)));
        }
    }
    Ok(output)
}

// ---------------------------------------------------------------------
// Reading and writing records
// ---------------------------------------------------------------------

/// The first missing item is missing, and nothing before it is.
pub proof fn lemma_first_missing<T>(items: Seq<Option<T>>)
    ensures
        match first_missing(items) {
            Some(i) => {
                &&& 0 <= i < items.len()
                &&& items[i] is None
                &&& forall|j: int| 0 <= j < i ==> (#[trigger] items[j]) is Some
            },
            None => forall|j: int| 0 <= j < items.len() ==> (#[trigger] items[j]) is Some,
        },
    decreases items.len(),
{
    if items.len() > 0 {
        let front = items.drop_last();
        lemma_first_missing(front);
        match first_missing(front) {
            Some(i) => {
                assert(front[i] == items[i]);
                assert forall|j: int| 0 <= j < i implies (#[trigger] items[j]) is Some by {
                    assert(front[j] == items[j]);
                }
            },
            None => {
                assert forall|j: int| 0 <= j < front.len() implies (#[trigger] items[j])
                    is Some by {
                    assert(front[j] == items[j]);
                }
            },
        }
    }
}

/// The outcome of a step that handles records one by one: the texts or
/// records of all of them, or the index of the first that failed.
pub open spec fn every<T>(items: Seq<Option<T>>) -> Result<Seq<T>, int> {
    match first_missing(items) {
        Some(i) => Err(i),
        None => Ok(all_present(items)),
    }
}

/// Reads each line as one record.
///
/// The result holds the records of all lines, in order. The first line
/// that is no JSON object ends the reading with an error that carries the
/// line's index.
pub fn parse_records(lines: &Vec<String>) -> (r: Result<Vec<IndexMap<String, Value>>, RuntimeError>)
    ensures
        match every(parsed_lines(lines.deep_view())) {
            Ok(records) => r is Ok && all_entries(r->Ok_0@) == records,
            Err(i) => r is Err && r->Err_0 is MalformedLine && r->Err_0->line == i,
        },
{
    let ghost texts = lines.deep_view();
    let ghost parsed = parsed_lines(texts);
    let mut records: Vec<IndexMap<String, Value>> = Vec::new();
    let mut i: usize = 0;
    proof {
        assert(parsed.take(0) =~= Seq::empty());
        assert(all_entries(records@) =~= all_present(parsed.take(0)));
    }
    while i < lines.len()
        invariant
            i <= lines.len(),
            texts == lines.deep_view(),
            parsed == parsed_lines(texts),
            first_missing(parsed.take(i as int)) is None,
            all_entries(records@) == all_present(parsed.take(i as int)),
        decreases lines.len() - i,
    {
        let ghost before = all_entries(records@);
        proof {
            assert(parsed.take(i + 1).drop_last() =~= parsed.take(i as int));
            assert(parsed.take(i + 1).last() == line_entries(lines[i as int]@));
        }
        match record_from_line(lines[i].as_str()) {
            Ok(record) => {
                records.push(record);
                proof {
                    assert(texts[i as int] == lines[i as int]@);
                    assert(all_entries(records@) =~= before.push(record_entries(record)));
                    assert(all_present(parsed.take(i + 1)) =~= all_present(
                        parsed.take(i as int),
                    ).push(record_entries(record)));
                }
            },
            Err(e) => {
                proof {
                    lemma_first_missing_of_prefix(parsed, i as int);
                }
                return Err(RuntimeError::MalformedLine { line: i, message: error_message(&e) });
            },
        }
        i += 1;
    }
    proof {
        assert(parsed.take(parsed.len() as int) =~= parsed);
    }
    Ok(records)
}

/// Where the item at `i` is missing and nothing before it is, `i` is the
/// first missing index of the whole sequence.
pub proof fn lemma_first_missing_of_prefix<T>(items: Seq<Option<T>>, i: int)
    requires
        0 <= i < items.len(),
        first_missing(items.take(i)) is None,
        items[i] is None,
    ensures
        first_missing(items) == Some(i),
{
    lemma_first_missing(items.take(i));
    lemma_first_missing(items);
    assert forall|j: int| 0 <= j < i implies (#[trigger] items[j]) is Some by {
        assert(items.take(i)[j] == items[j]);
    }
}

/// Writes each record as one line of JSON.
///
/// The result holds the texts of all records, in order. Every record can
/// be written, so the result is never an error.
pub fn render_records(records: &Vec<IndexMap<String, Value>>) -> (r: Result<
    Vec<String>,
    RuntimeError,
>)
    ensures
        r is Ok,
        r->Ok_0.deep_view() == json_lines(all_entries(records@)),
{
    let ghost texts = json_lines(all_entries(records@));
    let mut lines: Vec<String> = Vec::new();
    let mut i: usize = 0;
    proof {
        assert(lines.deep_view() =~= texts.take(0));
    }
    while i < records.len()
        invariant
            i <= records.len(),
            texts == json_lines(all_entries(records@)),
            lines.deep_view() == texts.take(i as int),
        decreases records.len() - i,
    {
        match record_to_line(&records[i]) {
            Ok(line) => {
                let ghost before = lines.deep_view();
                lines.push(line);
                proof {
                    assert(all_entries(records@)[i as int] == record_entries(records[i as int]));
                    assert(lines.deep_view() =~= before.push(line@));
                    assert(texts.take(i + 1) =~= texts.take(i as int).push(line@));
                }
            },
            Err(e) => {
                return Err(RuntimeError::Serialization { record: i, message: error_message(&e) });
            },
        }
        i += 1;
    }
    proof {
        assert(texts.take(texts.len() as int) =~= texts);
    }
    Ok(lines)
}

// ---------------------------------------------------------------------
// The commands
// ---------------------------------------------------------------------

/// The state after a command, and the counter after it. Only a transform
/// moves the counter, and only [`Interpreter::load`] changes the records.
pub open spec fn step_state(v: InterpreterView, c: CommandView, counter: nat) -> (
    InterpreterView,
    nat,
) {
    match c {
        CommandView::Input(path) => (InterpreterView { input_path: Some(path), ..v }, counter),
        CommandView::Output(path) => (InterpreterView { output_path: Some(path), ..v }, counter),
        CommandView::Print => (v, counter),
        CommandView::PrintLine(_) => (v, counter),
        CommandView::Transform(assignments) => {
            let made = transform_records(assignments, v.records, v.records.len() as int, counter);
            (InterpreterView { transformed: Some(made.0), ..v }, made.1)
        },
    }
}

/// What the caller has to do after a command.
///
/// `print` writes every record that is loaded, one line each. `print
/// line N` writes the record with the number `N`, counted from one; for
/// a number that no record has it warns.
pub open spec fn step_action(v: InterpreterView, c: CommandView) -> ActionView {
    match c {
        CommandView::Input(path) => ActionView::ReadInput(path),
        CommandView::Output(_) => ActionView::Nothing,
        CommandView::Transform(_) => ActionView::Nothing,
        CommandView::Print => ActionView::Print(json_lines(v.records)),
        CommandView::PrintLine(n) => {
            if n == 0 || n > v.records.len() {
                ActionView::WarnOutOfRange(n)
            } else {
                ActionView::Print(seq![entries_json(v.records[n - 1])])
            }
        },
    }
}

/// The records that a run writes out: those of the last transform, or,
/// where no transform has run, those of the input.
pub open spec fn output_records(v: InterpreterView) -> Seq<Entries> {
    match v.transformed {
        Some(records) => records,
        None => v.records,
    }
}

/// The output file at the end of a run: none where no output path was
/// named; else the path and the JSON text of each record to write.
pub open spec fn finish_output(v: InterpreterView) -> Option<(Seq<char>, Seq<Seq<char>>)> {
    match v.output_path {
        None => None,
        Some(path) => Some((path, json_lines(output_records(v)))),
    }
}

/// The number of values of the counter that a command needs.
pub open spec fn serial_demand(v: InterpreterView, c: CommandView) -> nat {
    match c {
        CommandView::Transform(assignments) => v.records.len() * assignment_serials(
            assignments,
            assignments.len() as int,
        ),
        _ => 0,
    }
}

/// A command that the interpreter can run in this state: its field paths
/// are not empty, and the counter has room for the numbers it needs.
pub open spec fn admissible(v: InterpreterView, c: CommandView, counter: nat) -> bool {
    well_formed_command(c) && counter + serial_demand(v, c) <= usize::MAX
}

// ---------------------------------------------------------------------
// Whole scripts
// ---------------------------------------------------------------------

/// The number of `input` commands among the first `n` commands.
pub open spec fn inputs_before(commands: Seq<CommandView>, n: int) -> nat
    decreases n,
{
    if 0 < n <= commands.len() {
        inputs_before(commands, n - 1) + if commands[n - 1] is Input {
            1nat
        } else {
            0nat
        }
    } else {
        0
    }
}

/// The state and the counter after the first `n` commands of a script,
/// where `loads[k]` holds the records that the `k`-th `input` command of
/// the script has read.
pub open spec fn run_script(
    v: InterpreterView,
    counter: nat,
    commands: Seq<CommandView>,
    n: int,
    loads: Seq<Seq<Entries>>,
) -> (InterpreterView, nat)
    decreases n,
{
    if 0 < n <= commands.len() {
        let before = run_script(v, counter, commands, n - 1, loads);
        let stepped = step_state(before.0, commands[n - 1], before.1);
        if commands[n - 1] is Input {
            (
                InterpreterView {
                    records: loads[inputs_before(commands, n - 1) as int],
                    ..stepped.0
                },
                stepped.1,
            )
        } else {
            stepped
        }
    } else {
        (v, counter)
    }
}

/// `print line N` with a number that no record has warns and changes
/// nothing: the state and the counter are what they were, so every other
/// command runs as if this one had not been there.
pub proof fn lemma_print_line_out_of_range(v: InterpreterView, n: nat, counter: nat)
    requires
        n == 0 || n > v.records.len(),
    ensures
        step_action(v, CommandView::PrintLine(n)) == ActionView::WarnOutOfRange(n),
        step_state(v, CommandView::PrintLine(n), counter) == (v, counter),
{
}

/// `print line N` with the number of a record writes that record's JSON
/// text and nothing else, and changes nothing.
pub proof fn lemma_print_line_in_range(v: InterpreterView, n: nat, counter: nat)
    requires
        1 <= n <= v.records.len(),
    ensures
        step_action(v, CommandView::PrintLine(n)) == ActionView::Print(
            seq![entries_json(v.records[n - 1])],
        ),
        step_state(v, CommandView::PrintLine(n), counter) == (v, counter),
{
}

/// `print` writes one line for each record that is loaded, in the order
/// of the records: the JSON text of that record.
pub proof fn lemma_print_writes_every_record(v: InterpreterView)
    ensures
        step_action(v, CommandView::Print) is Print,
        step_action(v, CommandView::Print)->Print_0.len() == v.records.len(),
        forall|i: int|
            0 <= i < v.records.len() ==> (#[trigger] step_action(
                v,
                CommandView::Print,
            )->Print_0[i]) == entries_json(v.records[i]),
{
}

/// `print` after `input` writes, for each line of the input and in the
/// lines' order, the JSON text of the record that the line denotes: the
/// records are neither reordered nor changed between reading and
/// printing.
pub proof fn lemma_print_after_input(v: InterpreterView, lines: Seq<Seq<char>>)
    requires
        first_missing(parsed_lines(lines)) is None,
    ensures
        ({
            let loaded = InterpreterView { records: all_present(parsed_lines(lines)), ..v };
            let action = step_action(loaded, CommandView::Print);
            &&& action is Print
            &&& action->Print_0.len() == lines.len()
            &&& forall|i: int|
                0 <= i < lines.len() ==> (#[trigger] action->Print_0[i]) == entries_json(
                    line_entries(lines[i])->0,
                )
        }),
{
    let loaded = InterpreterView { records: all_present(parsed_lines(lines)), ..v };
    let printed = step_action(loaded, CommandView::Print)->Print_0;
    assert forall|i: int| 0 <= i < lines.len() implies (#[trigger] printed[i]) == entries_json(
        line_entries(lines[i])->0,
    ) by {
        assert(loaded.records[i] == line_entries(lines[i])->0);
    }
}

/// `output` after `input`, with no transform: the output file has the
/// path that was named and one line for each line of the input, in the
/// lines' order, each the JSON text of the record that the line
/// denotes.
pub proof fn lemma_output_after_input(v: InterpreterView, lines: Seq<Seq<char>>, path: Seq<char>)
    requires
        first_missing(parsed_lines(lines)) is None,
        v.transformed is None,
    ensures
        ({
            let end = InterpreterView {
                records: all_present(parsed_lines(lines)),
                output_path: Some(path),
                ..v
            };
            let file = finish_output(end);
            let written = file->Some_0;
            &&& file is Some
            &&& written.0 == path
            &&& written.1.len() == lines.len()
            &&& forall|i: int|
                0 <= i < lines.len() ==> (#[trigger] written.1[i]) == entries_json(
                    line_entries(lines[i])->Some_0,
                )
        }),
{
    let end = InterpreterView {
        records: all_present(parsed_lines(lines)),
        output_path: Some(path),
        ..v
    };
    let written = finish_output(end)->Some_0;
    assert forall|i: int| 0 <= i < lines.len() implies (#[trigger] written.1[i]) == entries_json(
        line_entries(lines[i])->Some_0,
    ) by {
        assert(end.records[i] == line_entries(lines[i])->Some_0);
    }
}

/// A script without a transform never makes transformed records, so the
/// records that it writes out are the records of its input: those that
/// its last `input` command has read, in their order and unchanged, or
/// the ones it started with where it has no `input` command.
pub proof fn lemma_without_transform_output_is_input(
    v: InterpreterView,
    counter: nat,
    commands: Seq<CommandView>,
    n: int,
    loads: Seq<Seq<Entries>>,
)
    requires
        0 <= n <= commands.len(),
        v.transformed is None,
        forall|i: int| 0 <= i < n ==> !((#[trigger] commands[i]) is Transform),
    ensures
        run_script(v, counter, commands, n, loads).0.transformed is None,
        run_script(v, counter, commands, n, loads).1 == counter,
        output_records(run_script(v, counter, commands, n, loads).0) == run_script(
            v,
            counter,
            commands,
            n,
            loads,
        ).0.records,
        run_script(v, counter, commands, n, loads).0.records == if inputs_before(commands, n)
            == 0 {
            v.records
        } else {
            loads[inputs_before(commands, n) - 1]
        },
    decreases n,
{
    if 0 < n {
        lemma_without_transform_output_is_input(v, counter, commands, n - 1, loads);
        assert(!(commands[n - 1] is Transform));
    }
}

impl OutputFile {
    /// The path and the lines.
    pub open spec fn view(&self) -> (Seq<char>, Seq<Seq<char>>) {
        (self.path@, self.lines.deep_view())
    }
}

impl Interpreter {
    /// An interpreter that has seen no command: no paths, no records, no
    /// transform.
    pub fn new() -> (interpreter: Self)
        ensures
            interpreter@ == (InterpreterView {
                input_path: None,
                output_path: None,
                records: Seq::empty(),
                transformed: None,
            }),
    {
        let interpreter = Self {
            input_file_path: None,
            output_file_path: None,
            jsonl_data: Vec::new(),
            transformed_data: None,
        };
        assert(all_entries(interpreter.jsonl_data@) =~= Seq::empty());
        interpreter
    }

    /// Tells whether `command` can run in this state: its field paths are
    /// not empty, and the counter has room for the numbers it needs.
    pub fn admits(&self, command: &Command, state: &EvaluatorState) -> (ok: bool)
        ensures
            ok == admissible(self@, command@, state.serial_counter as nat),
    {
        if !command.is_well_formed() {
            return false;
        }
        match command {
            Command::Transform(assignments) => {
                let ghost list = assignments.deep_view();
                let records = self.jsonl_data.len();
                if records == 0 {
                    assert(0 * assignment_serials(list, list.len() as int) == 0)
                        by (nonlinear_arith);
                    return true;
                }
                // the numbers that one record needs
                let mut per_record: usize = 0;
                let mut i: usize = 0;
                while i < assignments.len()
                    invariant
                        i <= assignments.len(),
                        list == assignments.deep_view(),
                        command@ == CommandView::Transform(list),
                        well_formed_command(command@),
                        records == self@.records.len(),
                        records > 0,
                        per_record == assignment_serials(list, i as int),
                    decreases assignments.len() - i,
                {
                    proof {
                        assert(list[i as int].1 == assignments[i as int].1@);
                        lemma_assignment_serials_grows(list, i + 1, list.len() as int);
                    }
                    let more = match count_serials(&assignments[i].1) {
                        Some(k) => per_record.checked_add(k),
                        None => None,
                    };
                    match more {
                        Some(sum) => {
                            per_record = sum;
                        },
                        None => {
                            proof {
                                let all = assignment_serials(list, list.len() as int);
                                assert(records * all >= all) by (nonlinear_arith)
                                    requires
                                        records >= 1,
                                        all >= 0,
                                ;
                            }
                            return false;
                        },
                    }
                    i += 1;
                }
                match records.checked_mul(per_record) {
                    Some(demand) => state.serial_counter.checked_add(demand).is_some(),
                    None => false,
                }
            },
            _ => true,
        }
    }

    /// Runs one command.
    ///
    /// The state afterwards is [`step_state`] of the state before, and the
    /// answer is [`step_action`]: what to do outside. No command fails.
    /// `print` and `print line` leave the state as it is, also where the
    /// line number is out of range.
    pub fn step(&mut self, command: &Command, state: &mut EvaluatorState) -> (r: Result<
        Action,
        RuntimeError,
    >)
        requires
            admissible(old(self)@, command@, old(state).serial_counter as nat),
        ensures
            (final(self)@, final(state).serial_counter as nat) == step_state(
                old(self)@,
                command@,
                old(state).serial_counter as nat,
            ),
            r is Ok,
            r->Ok_0@ == step_action(old(self)@, command@),
    {
        match command {
            Command::Input(path) => {
                self.input_file_path = Some(path.clone());
                Ok(Action::ReadInput(path.clone()))
            },
            Command::Output(path) => {
                self.output_file_path = Some(path.clone());
                Ok(Action::Nothing)
            },
            Command::Print => {
                match render_records(&self.jsonl_data) {
                    Ok(lines) => Ok(Action::Print(lines)),
                    Err(e) => Err(e),
                }
            },
            Command::PrintLine(line_num) => {
                let line_num = *line_num;
                if line_num == 0 || line_num > self.jsonl_data.len() {
                    Ok(Action::WarnOutOfRange(line_num))
                } else {
                    let item = &self.jsonl_data[line_num - 1];
                    match record_to_line(item) {
                        Ok(line) => {
                            let mut lines: Vec<String> = Vec::new();
                            lines.push(line);
                            proof {
                                assert(lines.deep_view() =~= seq![line@]);
                            }
                            Ok(Action::Print(lines))
                        },
                        Err(e) => Err(
                            RuntimeError::Serialization {
                                record: line_num - 1,
                                message: error_message(&e),
                            },
                        ),
                    }
                }
            },
            Command::Transform(assignments) => {
                match apply_transform(&self.jsonl_data, assignments, state) {
                    Ok(records) => {
                        self.transformed_data = Some(records);
                        Ok(Action::Nothing)
                    },
                    Err(e) => Err(RuntimeError::Evaluation(e)),
                }
            },
        }
    }

    /// Takes the lines of the input file that the last `input` command
    /// named.
    ///
    /// Where every line is a JSON object, the records of the lines replace
    /// the records loaded before. Where one is not, the state stays as it
    /// is and the error carries the index of the first such line.
    pub fn load(&mut self, lines: &Vec<String>) -> (r: Result<(), RuntimeError>)
        ensures
            match every(parsed_lines(lines.deep_view())) {
                Ok(records) => r is Ok && final(self)@ == (InterpreterView {
                    records,
                    ..old(self)@
                }),
                Err(i) => {
                    &&& r is Err
                    &&& r->Err_0 is MalformedLine
                    &&& r->Err_0->line == i
                    &&& final(self)@ == old(self)@
                },
            },
    {
        match parse_records(lines) {
            Ok(records) => {
                self.jsonl_data = records;
                Ok(())
            },
            Err(e) => Err(e),
        }
    }

    /// The output file of the run: nothing where the script named no
    /// output path; else that path with one line of JSON for each record
    /// of the last transform, or of the input where no transform has run.
    pub fn finish(&self) -> (r: Result<Option<OutputFile>, RuntimeError>)
        ensures
            r is Ok,
            match finish_output(self@) {
                None => r->Ok_0 is None,
                Some(file) => r->Ok_0 is Some && r->Ok_0->0.view() == file,
            },
    {
        let path = match &self.output_file_path {
            Some(path) => path.clone(),
            None => {
                return Ok(None);
            },
        };
        let data = match &self.transformed_data {
            Some(records) => records,
            None => &self.jsonl_data,
        };
        match render_records(data) {
            Ok(lines) => Ok(Some(OutputFile { path, lines })),
            Err(e) => Err(e),
        }
    }
}

} // verus!
