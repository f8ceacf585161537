//! Observed states: which components were seen on or off, and a dataset of
//! such observations under their names.

use crate::confidence::Confidence;
use crate::csv_reader::{csv_header, csv_header_of, csv_rows, csv_rows_of, row_view, rows_view};
use crate::inference_problem::{
    clashes_with_regulation, regulation_clash, within, InferenceProblem,
};
use crate::network::Regulation;
use crate::smt_state::{constants_coincide, share_constant};
use crate::network::{find_name, NetworkModel};
use crate::state_specification::{with_assertion, Assertion, StateSpecification};
use crate::name_map::{
    has_key, key_set, lemma_map_entries, lemma_map_entries_upsert, lemma_upsert,
    lemma_upsert_entries, lemma_upsert_last, lookup, map_entries, sorted, str_equal, upsert,
    NameMap,
};
use crate::text::{
    c_safe, decimal, join, names, position_of, push_decimal, push_joined, trim, trim_of,
};
use vstd::prelude::*;
use vstd::string::*;
use vstd::utf8::encode_utf8;

verus! {

/// The character that stands for what `values` says of `name`: `1` or `0` for
/// a value, `*` for none.
pub open spec fn value_char(values: Seq<(Seq<char>, bool)>, name: Seq<char>) -> char {
    match lookup(values, name) {
        Some(true) => '1',
        Some(false) => '0',
        None => '*',
    }
}

/// One character for each of `variables`, in their order.
pub open spec fn value_string(values: Seq<(Seq<char>, bool)>, variables: Seq<Seq<char>>) -> Seq<
    char,
> {
    Seq::new(variables.len(), |i: int| value_char(values, variables[i]))
}

/// The map that comes of putting each value under its name, one pair after the
/// other: of two values under one name the later one stays.
pub open spec fn map_of_pairs(variables: Seq<Seq<char>>, values: Seq<bool>) -> Seq<
    (Seq<char>, bool),
>
    decreases variables.len(),
{
    if variables.len() == 0 || values.len() == 0 {
        Seq::empty()
    } else {
        upsert(
            map_of_pairs(variables.drop_last(), values.drop_last()),
            variables.last(),
            values.last(),
        )
    }
}

/// What `from_value_lists` says of two lists of different lengths.
pub open spec fn length_mismatch_message() -> Seq<char> {
    "Lists of variables and values must have the same length."@
}

/// A single observation: a value for some of the variables.
#[derive(Clone, Debug, PartialEq)]
pub struct Observation {
    pub value_map: NameMap<bool>,
}

impl Observation {
    /// The names strictly increase.
    pub open spec fn wf(&self) -> bool {
        self.value_map.wf()
    }

    /// The observation that holds exactly the given values.
    pub fn from_value_map(value_map: NameMap<bool>) -> (o: Observation)
        ensures
            o.value_map == value_map,
    {
        Observation { value_map }
    }

    /// The observation that gives each variable the value at its position.
    /// The lists must have the same length.
    pub fn from_value_lists(variables: Vec<String>, values: Vec<bool>) -> (r: Result<
        Observation,
        String,
    >)
        ensures
            variables@.len() != values@.len() ==> r is Err && r->Err_0@
                == length_mismatch_message(),
            variables@.len() == values@.len() ==> r is Ok && r->Ok_0.wf() && r->Ok_0.value_map@
                == map_of_pairs(names(variables@), values@),
    {
        if variables.len() != values.len() {
            return Err(
                String::from_str("Lists of variables and values must have the same length."),
            );
        }
        let mut value_map: NameMap<bool> = NameMap::new();
        let ghost all = names(variables@);
        let mut i: usize = 0;
        assert(all.take(0) =~= Seq::<Seq<char>>::empty());
        while i < variables.len()
            invariant
                i <= variables@.len(),
                variables@.len() == values@.len(),
                all == names(variables@),
                value_map.wf(),
                value_map@ == map_of_pairs(all.take(i as int), values@.take(i as int)),
            decreases variables@.len() - i,
        {
            proof {
                assert(all.take(i + 1).drop_last() =~= all.take(i as int));
                assert(values@.take(i + 1).drop_last() =~= values@.take(i as int));
            }
            value_map.insert(variables[i].clone(), values[i]);
            i += 1;
        }
        proof {
            assert(all.take(i as int) =~= all);
            assert(values@.take(i as int) =~= values@);
        }
        Ok(Observation::from_value_map(value_map))
    }

    /// The observation as a string of `0`, `1` and `*`, one character for each
    /// of `variables` in their order: `*` where the observation has no value.
    /// What it says of other variables is left out.
    pub fn to_value_string(&self, variables: &Vec<String>) -> (s: String)
        ensures
            s@ == value_string(self.value_map@, names(variables@)),
    {
        let mut value_string = String::new();
        let mut i: usize = 0;
        proof {
            reveal_strlit("1");
            reveal_strlit("0");
            reveal_strlit("*");
        }
        while i < variables.len()
            invariant
                i <= variables@.len(),
                value_string@ == crate::observations::value_string(
                    self.value_map@,
                    names(variables@),
                ).take(i as int),
                "1"@ == seq!['1'],
                "0"@ == seq!['0'],
                "*"@ == seq!['*'],
            decreases variables@.len() - i,
        {
            let ghost before = value_string@;
            match self.value_map.get(variables[i].as_str()) {
                Some(bool_value) => {
                    if *bool_value {
                        value_string.append("1");
                    } else {
                        value_string.append("0");
                    }
                },
                None => {
                    value_string.append("*");
                },
            }
            proof {
                let whole = crate::observations::value_string(self.value_map@, names(variables@));
                assert(value_string@ =~= whole.take(i + 1));
            }
            i += 1;
        }
        proof {
            let whole = crate::observations::value_string(self.value_map@, names(variables@));
            assert(whole.take(i as int) =~= whole);
        }
        value_string
    }
}

/// One observation as the dataset prints it: its name, a colon, its values.
pub open spec fn observation_line(
    entry: (Seq<char>, Seq<(Seq<char>, bool)>),
    variables: Seq<Seq<char>>,
) -> Seq<char> {
    entry.0 + ": "@ + value_string(entry.1, variables)
}

/// The dataset in one line: its variables, then its observations in the order
/// of their names.
pub open spec fn debug_string(
    observations: Seq<(Seq<char>, Seq<(Seq<char>, bool)>)>,
    variables: Seq<Seq<char>>,
) -> Seq<char> {
    "{Variables: {"@ + join(variables, ", "@) + "}, Observations: {"@ + join(
        Seq::new(observations.len(), |i: int| observation_line(observations[i], variables)),
        ", "@,
    ) + "}}"@
}

/// Whether the text, as bytes, holds an empty row at `i`: a line break that
/// stands where a row begins, which is at the start of the text, after a line
/// feed, and after a carriage return unless the two are one break.
pub open spec fn empty_row_at(text: Seq<u8>, i: int) -> bool {
    &&& 0 <= i < text.len()
    &&& text[i] == 10 || text[i] == 13
    &&& i == 0 || text[i - 1] == 10 || (text[i - 1] == 13 && text[i] == 13)
}

/// Whether the text, as bytes, holds an empty row.
pub open spec fn has_empty_row(text: Seq<u8>) -> bool {
    exists|i: int| empty_row_at(text, i)
}

/// Whether the text holds an empty row.
pub fn holds_empty_row(text: &str) -> (b: bool)
    ensures
        b == has_empty_row(encode_utf8(text@)),
{
    let bytes = text.as_bytes();
    let mut i: usize = 0;
    while i < bytes.len()
        invariant
            i <= bytes@.len(),
            bytes@ == encode_utf8(text@),
            forall|j: int| 0 <= j < i ==> !empty_row_at(bytes@, j),
        decreases bytes@.len() - i,
    {
        let here = bytes[i];
        if here == 10 || here == 13 {
            if i == 0 {
                assert(empty_row_at(bytes@, i as int));
                return true;
            }
            let before = bytes[i - 1];
            if before == 10 || (before == 13 && here == 13) {
                assert(empty_row_at(bytes@, i as int));
                return true;
            }
        }
        i += 1;
    }
    false
}

/// What a cell of the table says: `0` and `1` give a value, the empty
/// cell, `*`, `ND` and `?` give none, and anything else is no cell.
pub open spec fn cell_meaning(cell: Seq<char>) -> Option<Option<bool>> {
    if cell == "0"@ {
        Some(Some(false))
    } else if cell == "1"@ {
        Some(Some(true))
    } else if cell == ""@ || cell == "*"@ || cell == "ND"@ || cell == "?"@ {
        Some(None)
    } else {
        None
    }
}

/// What is said of a record without fields.
pub open spec fn empty_observation_message() -> Seq<char> {
    "Cannot import empty observation."@
}

/// What is said of a record with more or fewer values than the header has
/// variables.
pub open spec fn column_mismatch_message(id: Seq<char>, found: nat, expected: nat) -> Seq<char> {
    "Observation '"@ + id + "' has "@ + decimal(found) + " value columns but header lists "@
        + decimal(expected) + " variables"@
}

/// What is said of a cell that is none.
pub open spec fn invalid_cell_message(cell: Seq<char>, variable: Seq<char>, id: Seq<char>) -> Seq<
    char,
> {
    "Invalid cell value '"@ + cell + "' for variable '"@ + variable + "' in observation '"@ + id
        + "'"@
}

/// The variables that a header names: its fields after the first, trimmed.
pub open spec fn header_variables(header: Seq<Seq<char>>) -> Seq<Seq<char>> {
    Seq::new(
        if header.len() > 0 {
            (header.len() - 1) as nat
        } else {
            0
        },
        |i: int| trim_of(header[i + 1]),
    )
}

/// The values that the first `n` cells of a record give, each under the name
/// of its column, or what is said of the first cell among them that is none.
pub open spec fn row_values(
    variables: Seq<Seq<char>>,
    cells: Seq<Seq<char>>,
    id: Seq<char>,
    n: nat,
) -> Result<Seq<(Seq<char>, bool)>, Seq<char>>
    decreases n,
{
    if n == 0 {
        Ok(Seq::empty())
    } else {
        match row_values(variables, cells, id, (n - 1) as nat) {
            Err(message) => Err(message),
            Ok(values) => {
                let variable = trim_of(variables[n - 1]);
                let cell = trim_of(cells[n - 1]);
                match cell_meaning(cell) {
                    None => Err(invalid_cell_message(cell, variable, id)),
                    Some(None) => Ok(values),
                    Some(Some(value)) => Ok(upsert(values, variable, value)),
                }
            },
        }
    }
}

/// The observation that a record holds: its name, which is the first field
/// trimmed, and its values; or what is said against the record.
pub open spec fn row_observation(variables: Seq<Seq<char>>, fields: Seq<Seq<char>>) -> Result<
    (Seq<char>, Seq<(Seq<char>, bool)>),
    Seq<char>,
> {
    if fields.len() == 0 {
        Err(empty_observation_message())
    } else if fields.len() - 1 != variables.len() {
        Err(column_mismatch_message(trim_of(fields[0]), (fields.len() - 1) as nat, variables.len()))
    } else {
        match row_values(variables, fields.skip(1), trim_of(fields[0]), variables.len()) {
            Err(message) => Err(message),
            Ok(values) => Ok((trim_of(fields[0]), values)),
        }
    }
}

/// The observations that the records hold, of two under one name the later
/// one; or what is said against the first record that something is said
/// against, be it by the reader of the table or here.
pub open spec fn table_observations(
    variables: Seq<Seq<char>>,
    rows: Seq<Result<Seq<Seq<char>>, Seq<char>>>,
) -> Result<Seq<(Seq<char>, Seq<(Seq<char>, bool)>)>, Seq<char>>
    decreases rows.len(),
{
    if rows.len() == 0 {
        Ok(Seq::empty())
    } else {
        match table_observations(variables, rows.drop_last()) {
            Err(message) => Err(message),
            Ok(observations) => match rows.last() {
                Err(message) => Err(message),
                Ok(fields) => match row_observation(variables, fields) {
                    Err(message) => Err(message),
                    Ok(entry) => Ok(upsert(observations, entry.0, entry.1)),
                },
            },
        }
    }
}

/// Whether `r` is the dataset that the header and the records of a table come
/// to, or says what is said against them.
pub open spec fn is_dataset_of(
    r: Result<Dataset, String>,
    header: Result<Seq<Seq<char>>, Seq<char>>,
    rows: Seq<Result<Seq<Seq<char>>, Seq<char>>>,
) -> bool {
    match header {
        Err(message) => r is Err && r->Err_0@ == message,
        Ok(fields) => match table_observations(header_variables(fields), rows) {
            Err(message) => r is Err && r->Err_0@ == message,
            Ok(observations) => {
                &&& r is Ok
                &&& r->Ok_0.wf()
                &&& r->Ok_0.variable_names() == header_variables(fields)
                &&& r->Ok_0.entries() == observations
            },
        },
    }
}

/// Reads the value that a cell gives.
fn read_cell(cell: &str) -> (r: Option<Option<bool>>)
    ensures
        r == cell_meaning(cell@),
{
    if str_equal(cell, "0") {
        Some(Some(false))
    } else if str_equal(cell, "1") {
        Some(Some(true))
    } else if str_equal(cell, "") || str_equal(cell, "*") || str_equal(cell, "ND") || str_equal(
        cell,
        "?",
    ) {
        Some(None)
    } else {
        None
    }
}

/// Reads the observation that a record holds.
fn read_row(variables: &Vec<String>, fields: &Vec<String>) -> (r: Result<
    (String, Observation),
    String,
>)
    ensures
        match row_observation(names(variables@), names(fields@)) {
            Err(message) => r is Err && r->Err_0@ == message,
            Ok(entry) => r is Ok && r->Ok_0.0@ == entry.0 && r->Ok_0.1.value_map@ == entry.1
                && r->Ok_0.1.wf(),
        },
{
    if fields.len() == 0 {
        return Err(String::from_str("Cannot import empty observation."));
    }
    let id = String::from_str(trim(fields[0].as_str()));

    // The same number of value columns as variables.
    if fields.len() - 1 != variables.len() {
        let mut message = String::from_str("Observation '");
        message.append(id.as_str());
        message.append("' has ");
        push_decimal(&mut message, fields.len() - 1);
        message.append(" value columns but header lists ");
        push_decimal(&mut message, variables.len());
        message.append(" variables");
        return Err(message);
    }
    let ghost cells = names(fields@).skip(1);
    let mut values_map: NameMap<bool> = NameMap::new();
    let mut i: usize = 0;
    while i < variables.len()
        invariant
            i <= variables@.len(),
            fields@.len() == variables@.len() + 1,
            cells == names(fields@).skip(1),
            id@ == trim_of(fields@[0]@),
            values_map.wf(),
            row_values(names(variables@), cells, id@, i as nat) == Ok::<
                Seq<(Seq<char>, bool)>,
                Seq<char>,
            >(values_map@),
        decreases variables@.len() - i,
    {
        let var_name = trim(variables[i].as_str());
        let cell = trim(fields[i + 1].as_str());
        assert(cells[i as int] == fields@[i + 1]@);
        match read_cell(cell) {
            Some(Some(value)) => {
                values_map.insert(String::from_str(var_name), value);
            },
            Some(None) => {
                // An unspecified value leaves the map as it is.
            },
            None => {
                let mut message = String::from_str("Invalid cell value '");
                message.append(cell);
                message.append("' for variable '");
                message.append(var_name);
                message.append("' in observation '");
                message.append(id.as_str());
                message.append("'");
                assert(row_values(names(variables@), cells, id@, (i + 1) as nat) is Err);
                assert(forall|n: nat|
                    i < n <= variables@.len() ==> #[trigger] row_values(
                        names(variables@),
                        cells,
                        id@,
                        n,
                    ) == row_values(names(variables@), cells, id@, (i + 1) as nat)) by {
                    lemma_row_values_error(
                        names(variables@),
                        cells,
                        id@,
                        (i + 1) as nat,
                        variables@.len() as nat,
                    );
                }
                return Err(message);
            },
        }
        i += 1;
    }
    Ok((id, Observation::from_value_map(values_map)))
}

/// Once a cell is none, what is said of it stays the outcome for every
/// longer part of the record.
proof fn lemma_row_values_error(
    variables: Seq<Seq<char>>,
    cells: Seq<Seq<char>>,
    id: Seq<char>,
    failed: nat,
    limit: nat,
)
    requires
        row_values(variables, cells, id, failed) is Err,
        failed <= limit,
    ensures
        forall|n: nat|
            failed <= n <= limit ==> #[trigger] row_values(variables, cells, id, n) == row_values(
                variables,
                cells,
                id,
                failed,
            ),
    decreases limit - failed,
{
    if failed < limit {
        lemma_row_values_error(variables, cells, id, failed, (limit - 1) as nat);
        assert(row_values(variables, cells, id, (limit - 1) as nat) == row_values(
            variables,
            cells,
            id,
            failed,
        ));
    }
}

/// Once something is said against a record, it stays the outcome for every
/// longer part of the table.
proof fn lemma_table_error(
    variables: Seq<Seq<char>>,
    rows: Seq<Result<Seq<Seq<char>>, Seq<char>>>,
    failed: int,
)
    requires
        0 <= failed <= rows.len(),
        table_observations(variables, rows.take(failed)) is Err,
    ensures
        table_observations(variables, rows) == table_observations(variables, rows.take(failed)),
    decreases rows.len(),
{
    if failed < rows.len() {
        assert(rows.drop_last().take(failed) =~= rows.take(failed));
        lemma_table_error(variables, rows.drop_last(), failed);
    } else {
        assert(rows.take(failed) =~= rows);
    }
}

/// What is said of a variable that the network does not have.
pub open spec fn missing_variable_message(name: Seq<char>) -> Seq<char> {
    "Variable '"@ + name + "' not found in the network"@
}

/// The assertion that an observed value comes to: a "may" of weight one half
/// on the component of that index.
pub open spec fn observed(variable: int, value: bool) -> Assertion {
    Assertion { variable: variable as usize, value, confidence: Confidence::of(1, 2) }
}

/// The assertions that the values of an observation come to, each on the
/// first component of its variable's name; or what is said of the first
/// variable that is not among `variables`.
pub open spec fn observation_assertions(
    variables: Seq<Seq<char>>,
    values: Seq<(Seq<char>, bool)>,
) -> Result<Seq<Assertion>, Seq<char>>
    decreases values.len(),
{
    if values.len() == 0 {
        Ok(Seq::empty())
    } else {
        match observation_assertions(variables, values.drop_last()) {
            Err(message) => Err(message),
            Ok(assertions) => match position_of(variables, values.last().0) {
                None => Err(missing_variable_message(values.last().0)),
                Some(i) => Ok(with_assertion(assertions, observed(i, values.last().1))),
            },
        }
    }
}

/// The specification of each observation under its name; or what is said of
/// the first variable, in the order of the observations and within them of
/// the variables, that is not among `variables`.
pub open spec fn dataset_specifications(
    variables: Seq<Seq<char>>,
    entries: Seq<(Seq<char>, Seq<(Seq<char>, bool)>)>,
) -> Result<Seq<(Seq<char>, Seq<Assertion>)>, Seq<char>>
    decreases entries.len(),
{
    if entries.len() == 0 {
        Ok(Seq::empty())
    } else {
        match dataset_specifications(variables, entries.drop_last()) {
            Err(message) => Err(message),
            Ok(specifications) => match observation_assertions(variables, entries.last().1) {
                Err(message) => Err(message),
                Ok(assertions) => Ok(upsert(specifications, entries.last().0, assertions)),
            },
        }
    }
}

/// Whether `r` holds the given specifications, each valid and on components
/// below `n`, or the given message.
pub open spec fn is_specification_list(
    r: Result<NameMap<StateSpecification>, String>,
    expected: Result<Seq<(Seq<char>, Seq<Assertion>)>, Seq<char>>,
    n: nat,
) -> bool {
    match expected {
        Err(message) => r is Err && r->Err_0@ == message,
        Ok(specifications) => {
            &&& r is Ok
            &&& r->Ok_0.wf()
            &&& map_entries(r->Ok_0@, |s: StateSpecification| s@) == specifications
            &&& forall|k: int|
                0 <= k < r->Ok_0@.len() ==> (#[trigger] r->Ok_0@[k]).1.wf() && within(
                    r->Ok_0@[k].1@,
                    n,
                )
        },
    }
}

/// Once a variable is missing, what is said of it stays the outcome for every
/// longer part of the observation.
proof fn lemma_assertions_error(
    variables: Seq<Seq<char>>,
    values: Seq<(Seq<char>, bool)>,
    failed: int,
)
    requires
        0 <= failed <= values.len(),
        observation_assertions(variables, values.take(failed)) is Err,
    ensures
        observation_assertions(variables, values) == observation_assertions(
            variables,
            values.take(failed),
        ),
    decreases values.len(),
{
    if failed < values.len() {
        assert(values.drop_last().take(failed) =~= values.take(failed));
        lemma_assertions_error(variables, values.drop_last(), failed);
    } else {
        assert(values.take(failed) =~= values);
    }
}

/// Once an observation names a missing variable, what is said of it stays the
/// outcome for every longer part of the dataset.
proof fn lemma_specifications_error(
    variables: Seq<Seq<char>>,
    entries: Seq<(Seq<char>, Seq<(Seq<char>, bool)>)>,
    failed: int,
)
    requires
        0 <= failed <= entries.len(),
        dataset_specifications(variables, entries.take(failed)) is Err,
    ensures
        dataset_specifications(variables, entries) == dataset_specifications(
            variables,
            entries.take(failed),
        ),
    decreases entries.len(),
{
    if failed < entries.len() {
        assert(entries.drop_last().take(failed) =~= entries.take(failed));
        lemma_specifications_error(variables, entries.drop_last(), failed);
    } else {
        assert(entries.take(failed) =~= entries);
    }
}

/// An observation comes to assertions exactly if each of its variables is
/// among `variables`.
pub proof fn lemma_assertions_ok(variables: Seq<Seq<char>>, values: Seq<(Seq<char>, bool)>)
    ensures
        observation_assertions(variables, values) is Ok <==> forall|i: int|
            0 <= i < values.len() ==> position_of(variables, (#[trigger] values[i]).0) is Some,
    decreases values.len(),
{
    if values.len() > 0 {
        let prev = values.drop_last();
        lemma_assertions_ok(variables, prev);
        if observation_assertions(variables, values) is Ok {
            assert forall|i: int| 0 <= i < values.len() implies position_of(
                variables,
                (#[trigger] values[i]).0,
            ) is Some by {
                if i < prev.len() {
                    assert(prev[i] == values[i]);
                }
            }
        } else if observation_assertions(variables, prev) is Ok {
            assert(position_of(variables, values[values.len() - 1].0) is None);
        } else {
            let i = choose|i: int|
                0 <= i < prev.len() && !(position_of(variables, (#[trigger] prev[i]).0) is Some);
            assert(prev[i] == values[i]);
        }
    }
}

/// A dataset comes to specifications exactly if each of its observations comes
/// to assertions.
pub proof fn lemma_specifications_ok(
    variables: Seq<Seq<char>>,
    entries: Seq<(Seq<char>, Seq<(Seq<char>, bool)>)>,
)
    ensures
        dataset_specifications(variables, entries) is Ok <==> forall|i: int|
            0 <= i < entries.len() ==> observation_assertions(
                variables,
                (#[trigger] entries[i]).1,
            ) is Ok,
    decreases entries.len(),
{
    if entries.len() > 0 {
        let prev = entries.drop_last();
        lemma_specifications_ok(variables, prev);
        if dataset_specifications(variables, entries) is Ok {
            assert forall|i: int| 0 <= i < entries.len() implies observation_assertions(
                variables,
                (#[trigger] entries[i]).1,
            ) is Ok by {
                if i < prev.len() {
                    assert(prev[i] == entries[i]);
                }
            }
        } else if dataset_specifications(variables, prev) is Ok {
            assert(observation_assertions(variables, entries[entries.len() - 1].1) is Err);
        } else {
            let i = choose|i: int|
                0 <= i < prev.len() && !(observation_assertions(
                    variables,
                    (#[trigger] prev[i]).1,
                ) is Ok);
            assert(prev[i] == entries[i]);
        }
    }
}

/// The specifications of a dataset stand under the names of its observations.
pub proof fn lemma_specification_names(
    variables: Seq<Seq<char>>,
    entries: Seq<(Seq<char>, Seq<(Seq<char>, bool)>)>,
)
    requires
        sorted(entries),
        dataset_specifications(variables, entries) is Ok,
    ensures
        key_set(dataset_specifications(variables, entries)->Ok_0) == key_set(entries),
        sorted(dataset_specifications(variables, entries)->Ok_0),
    decreases entries.len(),
{
    let specs = dataset_specifications(variables, entries)->Ok_0;
    if entries.len() > 0 {
        let prev = entries.drop_last();
        let last = entries.last();
        assert forall|i: int, j: int| 0 <= i < j < prev.len() implies crate::text::name_lt(
            #[trigger] prev[i].0,
            #[trigger] prev[j].0,
        ) by {
            assert(prev[i] == entries[i] && prev[j] == entries[j]);
        }
        lemma_specification_names(variables, prev);
        let before = dataset_specifications(variables, prev)->Ok_0;
        let assertions = observation_assertions(variables, last.1)->Ok_0;
        assert(key_set(before).len() == before.len());
        assert(key_set(prev).len() == prev.len());
        assert forall|i: int| 0 <= i < before.len() implies crate::text::name_lt(
            #[trigger] before[i].0,
            last.0,
        ) by {
            assert(key_set(before)[i].0 == before[i].0);
            assert(key_set(prev)[i].0 == prev[i].0);
            assert(prev[i] == entries[i]);
            assert(entries[entries.len() - 1] == last);
        }
        lemma_upsert_last(before, last.0, assertions);
        lemma_upsert(before, last.0, assertions);
        assert(key_set(specs) =~= key_set(entries)) by {
            assert forall|i: int| 0 <= i < specs.len() implies key_set(specs)[i] == key_set(
                entries,
            )[i] by {
                if i < before.len() {
                    assert(key_set(before)[i] == key_set(prev)[i]);
                    assert(prev[i] == entries[i]);
                }
            }
        }
    } else {
        assert(key_set(specs) =~= key_set(entries));
    }
}

/// The specification that one observation comes to.
fn observation_specification(observation: &Observation, variables: &Vec<String>) -> (r: Result<
    StateSpecification,
    String,
>)
    ensures
        match observation_assertions(names(variables@), observation.value_map@) {
            Err(message) => r is Err && r->Err_0@ == message,
            Ok(assertions) => r is Ok && r->Ok_0@ == assertions && r->Ok_0.wf() && within(
                assertions,
                variables@.len() as nat,
            ),
        },
{
    let ghost all = observation.value_map@;
    let mut spec = StateSpecification::new();
    let mut i: usize = 0;
    assert(all.take(0) =~= Seq::<(Seq<char>, bool)>::empty());
    while i < observation.value_map.len()
        invariant
            i <= all.len(),
            all == observation.value_map@,
            spec.wf(),
            within(spec@, variables@.len() as nat),
            observation_assertions(names(variables@), all.take(i as int)) == Ok::<
                Seq<Assertion>,
                Seq<char>,
            >(spec@),
        decreases all.len() - i,
    {
        let var_name = observation.value_map.key(i);
        let value = *observation.value_map.value(i);
        proof {
            assert(all.take(i + 1).drop_last() =~= all.take(i as int));
            assert(all.take(i + 1).last() == all[i as int]);
        }
        // The component of that name in the network.
        match find_name(variables, var_name.as_str()) {
            Some(var_id) => {
                let weight = Confidence::half();
                let ghost before = spec@;
                spec.assert_may(var_id, value, &weight);
                proof {
                    let a = observed(var_id as int, value);
                    crate::state_specification::lemma_with_assertion_within(
                        before,
                        a,
                        variables@.len() as nat,
                    );
                }
            },
            None => {
                let mut message = String::from_str("Variable '");
                message.append(var_name.as_str());
                message.append("' not found in the network");
                proof {
                    lemma_assertions_error(names(variables@), all, i + 1);
                }
                return Err(message);
            },
        }
        i += 1;
    }
    assert(all.take(i as int) =~= all);
    Ok(spec)
}

/// Whether the observations can be declared as states of a network with the
/// given regulations and components: no name holds a character of code zero,
/// and no two of the states, nor one of them and an auxiliary state of a
/// regulation, share a constant.
pub open spec fn states_fit(
    entries: Seq<(Seq<char>, Seq<(Seq<char>, bool)>)>,
    regulations: Seq<Regulation>,
    variables: Seq<Seq<char>>,
) -> bool {
    &&& forall|i: int| 0 <= i < entries.len() ==> c_safe((#[trigger] entries[i]).0)
    &&& forall|i: int, j: int|
        0 <= i < entries.len() && 0 <= j < entries.len() && i != j ==> !share_constant(
            (#[trigger] entries[i]).0,
            (#[trigger] entries[j]).0,
            variables,
        )
    &&& forall|i: int, r: int|
        0 <= i < entries.len() && 0 <= r < regulations.len() ==> !regulation_clash(
            (#[trigger] entries[i]).0,
            #[trigger] regulations[r],
            variables,
        )
}

/// A dataset of observations: each is a named assignment of values to some of
/// the dataset's `variables`.
#[derive(Clone, Debug, PartialEq)]
pub struct Dataset {
    pub observations: NameMap<Observation>,
    pub variables: Vec<String>,
}

impl Dataset {
    /// The names of the observations strictly increase, and so do the names
    /// within each observation.
    pub open spec fn wf(&self) -> bool {
        &&& self.observations.wf()
        &&& forall|i: int|
            0 <= i < self.observations@.len() ==> (#[trigger] self.observations@[i]).1.wf()
    }

    /// The observations as mathematical values: under the name of each, the
    /// values that it holds under the names of its variables.
    pub open spec fn entries(&self) -> Seq<(Seq<char>, Seq<(Seq<char>, bool)>)> {
        map_entries(self.observations@, |o: Observation| o.value_map@)
    }

    /// The names of the variables, in the order of the table's columns.
    pub open spec fn variable_names(&self) -> Seq<Seq<char>> {
        names(self.variables@)
    }

    /// The dataset that the header and the records of a table hold. The first
    /// field of the header and of each record is the name of the record; the
    /// others are the variables and their values. A record that the reader of
    /// the table refused, that has no field, whose number of values is not the
    /// number of variables, or that holds a cell other than `0`, `1`, the
    /// empty cell, `*`, `ND` and `?`, is an error, and the first such record
    /// decides which.
    pub fn from_records(
        header: &Result<Vec<String>, String>,
        rows: &Vec<Result<Vec<String>, String>>,
    ) -> (r: Result<Dataset, String>)
        ensures
            is_dataset_of(r, row_view(*header), rows_view(rows@)),
    {
        let fields = match header {
            Ok(fields) => fields,
            Err(message) => {
                return Err(message.clone());
            },
        };

        // The variables are the fields of the header after the first.
        let mut variables: Vec<String> = Vec::new();
        let mut c: usize = 1;
        while c < fields.len()
            invariant
                1 <= c <= fields@.len() || (c == 1 && fields@.len() == 0),
                variables@.len() == c - 1,
                forall|j: int|
                    0 <= j < variables@.len() ==> (#[trigger] variables@[j])@ == trim_of(
                        fields@[j + 1]@,
                    ),
            decreases fields@.len() - c,
        {
            variables.push(String::from_str(trim(fields[c].as_str())));
            c += 1;
        }
        assert(names(variables@) =~= header_variables(names(fields@)));

        // Every record is an observation.
        let ghost all = rows_view(rows@);
        let mut observations: NameMap<Observation> = NameMap::new();
        let mut i: usize = 0;
        proof {
            assert(all.take(0) =~= Seq::<Result<Seq<Seq<char>>, Seq<char>>>::empty());
            assert(map_entries(observations@, |o: Observation| o.value_map@) =~= Seq::<
                (Seq<char>, Seq<(Seq<char>, bool)>),
            >::empty());
        }
        while i < rows.len()
            invariant
                i <= rows@.len(),
                all == rows_view(rows@),
                row_view(*header) == Ok::<Seq<Seq<char>>, Seq<char>>(names(fields@)),
                names(variables@) == header_variables(names(fields@)),
                observations.wf(),
                forall|k: int|
                    0 <= k < observations@.len() ==> (#[trigger] observations@[k]).1.wf(),
                table_observations(names(variables@), all.take(i as int)) == Ok::<
                    Seq<(Seq<char>, Seq<(Seq<char>, bool)>)>,
                    Seq<char>,
                >(map_entries(observations@, |o: Observation| o.value_map@)),
            decreases rows@.len() - i,
        {
            proof {
                assert(all.take(i + 1).drop_last() =~= all.take(i as int));
                assert(all.take(i + 1).last() == row_view(rows@[i as int]));
            }
            let record = match &rows[i] {
                Ok(record) => record,
                Err(message) => {
                    proof {
                        lemma_table_error(names(variables@), all, i + 1);
                    }
                    return Err(message.clone());
                },
            };
            match read_row(&variables, record) {
                Ok((id, observation)) => {
                    proof {
                        lemma_map_entries_upsert(
                            observations@,
                            |o: Observation| o.value_map@,
                            id@,
                            observation,
                        );
                        lemma_upsert_entries(observations@, id@, observation);
                        let after = upsert(observations@, id@, observation);
                        assert forall|k: int| 0 <= k < after.len() implies (
                        #[trigger] after[k]).1.wf() by {
                            if after[k] != (id@, observation) {
                                let j = choose|j: int|
                                    0 <= j < observations@.len() && observations@[j] == after[k];
                                assert(observations@[j].1.wf());
                            }
                        }
                    }
                    observations.insert(id, observation);
                },
                Err(message) => {
                    proof {
                        lemma_table_error(names(variables@), all, i + 1);
                    }
                    return Err(message);
                },
            }
            i += 1;
        }
        assert(all.take(i as int) =~= all);
        Ok(Dataset { observations, variables })
    }

    /// The dataset that a text of comma-separated values holds. The first
    /// line names the variables, each following line is one observation: its
    /// name, then its values. For example:
    ///
    /// ```text
    /// ID,YOX1,CLN3,YHP1,ACE2,SWI5,MBF
    /// Observation1,0,1,0,1,0,1
    /// Observation2,1,0,*,1,0,*
    /// ```
    ///
    /// An empty row is an error, and is found before anything else is read,
    /// because the reader of the table passes over empty rows in silence. A
    /// row is empty where a line break stands at its beginning, be it within
    /// quotes or not.
    pub fn from_csv(csv_content: &str) -> (r: Result<Dataset, String>)
        ensures
            has_empty_row(encode_utf8(csv_content@)) ==> r is Err && r->Err_0@
                == empty_observation_message(),
            !has_empty_row(encode_utf8(csv_content@)) ==> is_dataset_of(
                r,
                csv_header_of(csv_content@),
                csv_rows_of(csv_content@),
            ),
    {
        if holds_empty_row(csv_content) {
            return Err(String::from_str("Cannot import empty observation."));
        }
        let header = csv_header(csv_content);
        let rows = csv_rows(csv_content);
        Dataset::from_records(&header, &rows)
    }

    /// The specification of each observation under its name, for a network
    /// with the given components: every observed value is a "may" of weight
    /// one half on the first component of that name. A variable that is not
    /// among the components is an error.
    pub fn specifications_for(&self, variables: &Vec<String>) -> (r: Result<
        NameMap<StateSpecification>,
        String,
    >)
        ensures
            is_specification_list(
                r,
                dataset_specifications(names(variables@), self.entries()),
                variables@.len() as nat,
            ),
    {
        let ghost all = self.entries();
        let mut specs: NameMap<StateSpecification> = NameMap::new();
        let mut i: usize = 0;
        proof {
            assert(all.take(0) =~= Seq::<(Seq<char>, Seq<(Seq<char>, bool)>)>::empty());
            assert(map_entries(specs@, |s: StateSpecification| s@) =~= Seq::<
                (Seq<char>, Seq<Assertion>),
            >::empty());
        }
        while i < self.observations.len()
            invariant
                i <= all.len(),
                all == self.entries(),
                all.len() == self.observations@.len(),
                specs.wf(),
                forall|k: int|
                    0 <= k < specs@.len() ==> (#[trigger] specs@[k]).1.wf() && within(
                        specs@[k].1@,
                        variables@.len() as nat,
                    ),
                dataset_specifications(names(variables@), all.take(i as int)) == Ok::<
                    Seq<(Seq<char>, Seq<Assertion>)>,
                    Seq<char>,
                >(map_entries(specs@, |s: StateSpecification| s@)),
            decreases all.len() - i,
        {
            let obs_id = self.observations.key(i);
            let observation = self.observations.value(i);
            proof {
                assert(all.take(i + 1).drop_last() =~= all.take(i as int));
                assert(all.take(i + 1).last() == (obs_id@, observation.value_map@));
            }
            match observation_specification(observation, variables) {
                Ok(spec) => {
                    proof {
                        lemma_map_entries_upsert(
                            specs@,
                            |s: StateSpecification| s@,
                            obs_id@,
                            spec,
                        );
                        lemma_upsert_entries(specs@, obs_id@, spec);
                        let after = upsert(specs@, obs_id@, spec);
                        assert forall|k: int| 0 <= k < after.len() implies (
                        #[trigger] after[k]).1.wf() && within(
                            after[k].1@,
                            variables@.len() as nat,
                        ) by {
                            if after[k] != (obs_id@, spec) {
                                let j = choose|j: int|
                                    0 <= j < specs@.len() && specs@[j] == after[k];
                                assert(specs@[j].1.wf());
                            }
                        }
                    }
                    specs.insert(obs_id.clone(), spec);
                },
                Err(message) => {
                    proof {
                        lemma_specifications_error(names(variables@), all, i + 1);
                    }
                    return Err(message);
                },
            }
            i += 1;
        }
        assert(all.take(i as int) =~= all);
        Ok(specs)
    }

    /// The specification of each observation under its name, for the given
    /// network: every observed value is a "may" of weight one half on the
    /// component of that name. A variable that the network does not have is an
    /// error.
    pub fn to_specification_list(&self, network: &NetworkModel) -> (r: Result<
        NameMap<StateSpecification>,
        String,
    >)
        ensures
            is_specification_list(
                r,
                dataset_specifications(network.variables(), self.entries()),
                network.variables().len(),
            ),
    {
        self.specifications_for(network.variable_names())
    }

    /// Whether the observations can be declared as states of the network.
    #[verifier::loop_isolation(false)]
    pub fn states_fit_network(&self, network: &NetworkModel) -> (b: bool)
        ensures
            b == states_fit(self.entries(), network.regulations(), network.variables()),
    {
        let ghost entries = self.entries();
        let n = self.observations.len();
        let mut i: usize = 0;
        while i < n
            invariant
                i <= n,
                n == self.observations@.len(),
                entries == self.entries(),
                entries.len() == n,
                forall|k: int| 0 <= k < i ==> c_safe((#[trigger] entries[k]).0),
                forall|k: int, j: int|
                    0 <= k < i && 0 <= j < n && k != j ==> !share_constant(
                        (#[trigger] entries[k]).0,
                        (#[trigger] entries[j]).0,
                        network.variables(),
                    ),
                forall|k: int, r: int|
                    0 <= k < i && 0 <= r < network.regulations().len() ==> !regulation_clash(
                        (#[trigger] entries[k]).0,
                        #[trigger] network.regulations()[r],
                        network.variables(),
                    ),
            decreases n - i,
        {
            let name = self.observations.key(i);
            assert(entries[i as int].0 == name@);
            if !crate::text::is_c_safe(name.as_str()) {
                return false;
            }
            let mut j: usize = 0;
            while j < n
                invariant
                    j <= n,
                    i < n,
                    n == self.observations@.len(),
                    entries == self.entries(),
                    entries.len() == n,
                    entries[i as int].0 == name@,
                    forall|x: int|
                        0 <= x < j && x != i ==> !share_constant(
                            name@,
                            (#[trigger] entries[x]).0,
                            network.variables(),
                        ),
                decreases n - j,
            {
                if j != i {
                    let other = self.observations.key(j);
                    assert(entries[j as int].0 == other@);
                    if constants_coincide(name.as_str(), other.as_str(), network.variable_names()) {
                        return false;
                    }
                }
                j += 1;
            }
            let mut r: usize = 0;
            while r < network.num_regulations()
                invariant
                    r <= network.regulations().len(),
                    forall|x: int|
                        0 <= x < r ==> !regulation_clash(
                            name@,
                            #[trigger] network.regulations()[x],
                            network.variables(),
                        ),
                decreases network.regulations().len() - r,
            {
                let regulation = network.get_regulation(r);
                if clashes_with_regulation(name.as_str(), &regulation, network.variable_names()) {
                    return false;
                }
                r += 1;
            }
            i += 1;
        }
        true
    }

    /// The inference problem that the dataset and the given network come to:
    /// every observation is a state of its name, which is a fixed point and
    /// follows the specification of the observation. A variable that the
    /// network does not have is an error. The network must leave no update
    /// function out, and the observations must fit as states: their names
    /// hold no character of code zero, and no two of the states, nor one of
    /// them and an auxiliary state of a regulation, share a constant.
    pub fn to_inference_problem(&self, network: NetworkModel) -> (r: Result<
        InferenceProblem,
        String,
    >)
        requires
            self.wf(),
            network.wf(),
            network.implicit_parameters() == 0,
            states_fit(self.entries(), network.regulations(), network.variables()),
        ensures
            match dataset_specifications(network.variables(), self.entries()) {
                Err(message) => r is Err && r->Err_0@ == message,
                Ok(specifications) => {
                    &&& r is Ok
                    &&& r->Ok_0.wf()
                    &&& r->Ok_0.network() == network
                    &&& r->Ok_0.states() == key_set(self.entries())
                    &&& r->Ok_0.fixed_points() == key_set(self.entries())
                    &&& r->Ok_0.specifications() == specifications
                },
            },
    {
        let specs = match self.to_specification_list(&network) {
            Ok(specs) => specs,
            Err(message) => {
                return Err(message);
            },
        };
        let ghost view = map_entries(specs@, |s: StateSpecification| s@);
        let ghost keys = key_set(self.entries());
        proof {
            lemma_map_entries(self.observations@, |o: Observation| o.value_map@, Seq::empty());
            lemma_specification_names(network.variables(), self.entries());
            assert(key_set(view).len() == view.len());
            assert(keys.len() == self.entries().len());
            assert(keys.take(0) =~= Seq::<(Seq<char>, ())>::empty());
            assert(view.take(0) =~= Seq::<(Seq<char>, Seq<Assertion>)>::empty());
            assert forall|k: int, j: int|
                0 <= k < keys.len() && 0 <= j < keys.len() && k != j implies !share_constant(
                (#[trigger] keys[k]).0,
                (#[trigger] keys[j]).0,
                network.variables(),
            ) by {
                assert(keys[k].0 == self.entries()[k].0);
                assert(keys[j].0 == self.entries()[j].0);
            }
            assert forall|k: int, r: int|
                0 <= k < keys.len() && 0 <= r < network.regulations().len()
                    implies !regulation_clash(
                (#[trigger] keys[k]).0,
                #[trigger] network.regulations()[r],
                network.variables(),
            ) by {
                assert(keys[k].0 == self.entries()[k].0);
            }
        }
        let mut problem = InferenceProblem::new(network);
        let mut i: usize = 0;
        while i < specs.len()
            invariant
                i <= specs@.len(),
                specs.wf(),
                view == map_entries(specs@, |s: StateSpecification| s@),
                keys == key_set(self.entries()),
                keys == key_set(view),
                sorted(view),
                keys.len() == view.len(),
                view.len() == specs@.len(),
                forall|k: int| 0 <= k < keys.len() ==> c_safe((#[trigger] keys[k]).0),
                forall|k: int, j: int|
                    0 <= k < keys.len() && 0 <= j < keys.len() && k != j ==> !share_constant(
                        (#[trigger] keys[k]).0,
                        (#[trigger] keys[j]).0,
                        network.variables(),
                    ),
                forall|k: int, r: int|
                    0 <= k < keys.len() && 0 <= r < network.regulations().len()
                        ==> !regulation_clash(
                        (#[trigger] keys[k]).0,
                        #[trigger] network.regulations()[r],
                        network.variables(),
                    ),
                forall|k: int|
                    0 <= k < specs@.len() ==> (#[trigger] specs@[k]).1.wf() && within(
                        specs@[k].1@,
                        network.variables().len(),
                    ),
                problem.wf(),
                problem.network() == network,
                problem.states() == keys.take(i as int),
                problem.fixed_points() == keys.take(i as int),
                problem.specifications() == view.take(i as int),
            decreases specs@.len() - i,
        {
            let obs_id = specs.key(i);
            let obs_specification = specs.value(i);
            proof {
                let id = obs_id@;
                assert(view[i as int] == (id, obs_specification@));
                assert(keys[i as int] == (id, ()));
                assert forall|k: int| 0 <= k < i implies crate::text::name_lt(
                    #[trigger] keys.take(i as int)[k].0,
                    id,
                ) by {
                    assert(keys[k].0 == view[k].0);
                    assert(crate::text::name_lt(view[k].0, view[i as int].0));
                }
                assert forall|k: int| 0 <= k < i implies crate::text::name_lt(
                    #[trigger] view.take(i as int)[k].0,
                    id,
                ) by {
                    assert(crate::text::name_lt(view[k].0, view[i as int].0));
                }
                assert forall|k: int| 0 <= k < i implies !share_constant(
                    id,
                    (#[trigger] keys.take(i as int)[k]).0,
                    network.variables(),
                ) by {
                    assert(!share_constant(keys[i as int].0, keys[k].0, network.variables()));
                }
                lemma_upsert_last(keys.take(i as int), id, ());
                lemma_upsert_last(view.take(i as int), id, obs_specification@);
                lemma_upsert(keys.take(i as int), id, ());
                assert(keys.take(i as int).push((id, ())) =~= keys.take(i + 1));
                assert(view.take(i as int).push((id, obs_specification@)) =~= view.take(i + 1));
                assert(has_key(keys.take(i + 1), id)) by {
                    assert(lookup(upsert(keys.take(i as int), id, ()), id) == Some(()));
                }
            }
            let _ = problem.make_state(obs_id.as_str());
            problem.assert_fixed_point(obs_id.as_str());
            problem.assert_state_observation(obs_id.as_str(), obs_specification);
            i += 1;
        }
        proof {
            assert(keys.take(i as int) =~= keys);
            assert(view.take(i as int) =~= view);
        }
        Ok(problem)
    }

    /// The dataset in one line: first the variables, then the observations as
    /// strings of `0`, `1` and `*`.
    pub fn to_debug_string(&self) -> (s: String)
        ensures
            s@ == debug_string(self.entries(), self.variable_names()),
    {
        let mut dataset_string = String::new();
        dataset_string.append("{Variables: {");
        push_joined(&mut dataset_string, &self.variables, ", ");
        dataset_string.append("}, Observations: {");
        let ghost lines = Seq::new(
            self.entries().len(),
            |i: int| observation_line(self.entries()[i], names(self.variables@)),
        );
        let mut observations_string_list: Vec<String> = Vec::new();
        let mut i: usize = 0;
        while i < self.observations.len()
            invariant
                i <= self.observations@.len(),
                lines == Seq::new(
                    self.entries().len(),
                    |i: int| observation_line(self.entries()[i], names(self.variables@)),
                ),
                observations_string_list@.len() == i,
                names(observations_string_list@) == lines.take(i as int),
            decreases self.observations@.len() - i,
        {
            let mut line = self.observations.key(i).clone();
            line.append(": ");
            let values = self.observations.value(i).to_value_string(&self.variables);
            line.append(values.as_str());
            let ghost before = observations_string_list@;
            assert(line@ == lines[i as int]);
            observations_string_list.push(line);
            proof {
                assert forall|j: int| 0 <= j < i + 1 implies names(observations_string_list@)[j]
                    == lines.take(i + 1)[j] by {
                    if j < i {
                        assert(names(before)[j] == lines.take(i as int)[j]);
                    }
                }
                assert(names(observations_string_list@) =~= lines.take(i + 1));
            }
            i += 1;
        }
        proof {
            assert(lines.take(i as int) =~= lines);
        }
        push_joined(&mut dataset_string, &observations_string_list, ", ");
        dataset_string.append("}}");
        proof {
            assert(dataset_string@ =~= debug_string(self.entries(), names(self.variables@)));
        }
        dataset_string
    }
}

} // verus!
