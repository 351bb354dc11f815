//! From the rows of the input table to agents: the first field of a row is
//! the agent's name, which is not empty, and each further field is one
//! choice, as a decimal number.

use crate::error::InputError;
use crate::prefs::{model_of, Agent, AgentModel};
use vstd::prelude::*;

verus! {

/// `c` is one of the digits `0` to `9`.
pub open spec fn is_digit(c: char) -> bool {
    '0' <= c && c <= '9'
}

/// The number that the digits `s` denote in base ten.
pub open spec fn digits_value(s: Seq<char>) -> nat
    decreases s.len(),
{
    if s.len() == 0 {
        0
    } else {
        (digits_value(s.drop_last()) * 10 + (s.last() as u32 - '0' as u32)) as nat
    }
}

/// The digits of `s`: all of it, but for one leading `+`.
pub open spec fn digits_of(s: Seq<char>) -> Seq<char> {
    if s.len() > 0 && s[0] == '+' {
        s.subrange(1, s.len() as int)
    } else {
        s
    }
}

/// The choice that `s` denotes: `s` is one digit or more, after at most one
/// `+`, and the number fits in `usize`.
pub open spec fn choice_of(s: Seq<char>) -> Option<nat> {
    let d = digits_of(s);
    if d.len() > 0 && (forall|i: int| 0 <= i < d.len() ==> is_digit(#[trigger] d[i])) && digits_value(d)
        <= usize::MAX {
        Some(digits_value(d))
    } else {
        None
    }
}

/// The fields of a row as sequences of characters.
pub open spec fn fields_model(fields: Seq<String>) -> Seq<Seq<char>> {
    Seq::new(fields.len(), |f: int| fields[f]@)
}

/// The rows of a table as sequences of fields.
pub open spec fn rows_model(rows: Seq<Vec<String>>) -> Seq<Seq<Seq<char>>> {
    Seq::new(rows.len(), |r: int| fields_model(rows[r]@))
}

/// The row has a name: it has a first field, and that field is not empty.
pub open spec fn has_name(fields: Seq<Seq<char>>) -> bool {
    fields.len() > 0 && fields[0].len() > 0
}

/// The row has a name, and each further field denotes a choice.
pub open spec fn row_ok(fields: Seq<Seq<char>>) -> bool {
    &&& has_name(fields)
    &&& forall|f: int| 1 <= f < fields.len() ==> (#[trigger] choice_of(fields[f])) is Some
}

/// The agent of a row: its first field is the name, the others are the
/// choices in their order.
pub open spec fn row_agent(fields: Seq<Seq<char>>) -> AgentModel {
    AgentModel {
        name: fields[0],
        choices: Seq::new((fields.len() - 1) as nat, |k: int| choice_of(fields[k + 1]).unwrap()),
    }
}

/// `e` is what is wrong with row number `row`: it has no name, or else `e`
/// names the first of its fields that denotes no choice. The name is judged
/// before the choices.
pub open spec fn row_fails_with(fields: Seq<Seq<char>>, row: usize, e: InputError) -> bool {
    match e {
        InputError::Malformed { .. } => false,
        InputError::MissingName { row: r } => r == row && !has_name(fields),
        InputError::BadChoice { row: r, field } => {
            &&& r == row
            &&& has_name(fields)
            &&& 1 <= field < fields.len()
            &&& choice_of(fields[field as int]) is None
            &&& forall|f: int| 1 <= f < field ==> (#[trigger] choice_of(fields[f])) is Some
        },
    }
}

proof fn lemma_digits_value_grows(s: Seq<char>, k: int)
    requires
        0 <= k <= s.len(),
        forall|i: int| 0 <= i < s.len() ==> is_digit(#[trigger] s[i]),
    ensures
        digits_value(s.take(k)) <= digits_value(s),
    decreases s.len() - k,
{
    if k < s.len() {
        lemma_digits_value_grows(s, k + 1);
        assert(s.take(k + 1).drop_last() =~= s.take(k));
        assert(is_digit(s[k]));
    } else {
        assert(s.take(k) =~= s);
    }
}

/// The choice that `s` denotes, by the rules of `choice_of`.
pub fn parse_choice(s: &str) -> (res: Option<usize>)
    ensures
        match res {
            Some(c) => choice_of(s@) == Some(c as nat),
            None => choice_of(s@) is None,
        },
{
    if !s.is_ascii() {
        proof {
            let i = choose|i: int| 0 <= i < s@.len() && !('\0' <= #[trigger] s@[i] <= '\u{7f}');
            let d = digits_of(s@);
            if d.len() > 0 && (forall|j: int| 0 <= j < d.len() ==> is_digit(#[trigger] d[j])) {
                if s@[0] == '+' {
                    assert(d[i - 1] == s@[i]);
                    assert(is_digit(d[i - 1]));
                } else {
                    assert(is_digit(d[i]));
                }
            }
        }
        return None;
    }
    let bytes = s.as_bytes();
    let n: usize = bytes.len();
    let start: usize = if n > 0 && bytes[0] == 43u8 { 1 } else { 0 };
    let ghost d = digits_of(s@);
    proof {
        assert(bytes@ =~= Seq::new(s@.len(), |i: int| s@[i] as u8));
        assert(n > 0 ==> (bytes@[0] == 43u8 <==> s@[0] == '+')) by {
            if n > 0 {
                assert('\0' <= s@[0] <= '\u{7f}');
            }
        }
        assert(d.len() == n - start);
        assert forall|i: int| 0 <= i < d.len() implies #[trigger] d[i] == s@[i + start] by {}
    }
    if start == n {
        return None;
    }
    let mut acc: usize = 0;
    let mut k: usize = start;
    while k < n
        invariant
            start <= k <= n,
            n == bytes@.len(),
            n == s@.len(),
            d == digits_of(s@),
            d.len() == n - start,
            d.len() > 0,
            forall|i: int| 0 <= i < n ==> '\0' <= #[trigger] s@[i] <= '\u{7f}',
            forall|i: int| 0 <= i < n ==> #[trigger] bytes@[i] == s@[i] as u8,
            forall|i: int| 0 <= i < d.len() ==> #[trigger] d[i] == s@[i + start],
            forall|i: int| 0 <= i < k - start ==> is_digit(#[trigger] d[i]),
            acc == digits_value(d.take(k - start)),
        decreases n - k,
    {
        let b: u8 = bytes[k];
        proof {
            assert('\0' <= s@[k as int] <= '\u{7f}');
            assert(d[k - start] == s@[k as int]);
            assert(d.take(k - start + 1).drop_last() =~= d.take(k - start));
        }
        if b < 48u8 || b > 57u8 {
            proof {
                assert(!is_digit(d[k - start]));
            }
            return None;
        }
        let digit: usize = (b - 48u8) as usize;
        let next = match acc.checked_mul(10) {
            Some(x) => x.checked_add(digit),
            None => None,
        };
        match next {
            Some(x) => {
                acc = x;
            },
            None => {
                proof {
                    if forall|i: int| 0 <= i < d.len() ==> is_digit(#[trigger] d[i]) {
                        lemma_digits_value_grows(d, k - start + 1);
                    }
                }
                return None;
            },
        }
        k = k + 1;
    }
    proof {
        assert(d.take(n - start) =~= d);
    }
    Some(acc)
}

/// The agent of row number `row`, whose fields are `fields`.
pub fn parse_row(fields: &Vec<String>, row: usize) -> (res: Result<Agent, InputError>)
    ensures
        match res {
            Ok(a) => row_ok(fields_model(fields@)) && a@ == row_agent(fields_model(fields@)),
            Err(e) => row_fails_with(fields_model(fields@), row, e),
        },
{
    let ghost model = fields_model(fields@);
    if fields.len() == 0 {
        return Err(InputError::MissingName { row });
    }
    assert(model[0] == fields@[0]@);
    if fields[0].as_str().is_empty() {
        return Err(InputError::MissingName { row });
    }
    let mut choices: Vec<usize> = Vec::new();
    let mut f: usize = 1;
    while f < fields.len()
        invariant
            1 <= f <= fields.len(),
            model == fields_model(fields@),
            has_name(model),
            choices@.len() == f - 1,
            forall|g: int| 1 <= g < f ==> (#[trigger] choice_of(model[g])) is Some,
            forall|k: int|
                0 <= k < f - 1 ==> Some(#[trigger] choices@[k] as nat) == choice_of(model[k + 1]),
        decreases fields.len() - f,
    {
        assert(model[f as int] == fields@[f as int]@);
        match parse_choice(fields[f].as_str()) {
            Some(c) => {
                choices.push(c);
            },
            None => {
                return Err(InputError::BadChoice { row, field: f });
            },
        }
        f = f + 1;
    }
    let agent = Agent { name: fields[0].clone(), choices };
    proof {
        assert(model[0] == fields@[0]@);
        assert(agent@.choices =~= row_agent(model).choices);
    }
    Ok(agent)
}

/// `e` is the error of the first row of `rows` that is not an agent.
pub open spec fn table_fails_with(rows: Seq<Seq<Seq<char>>>, e: InputError) -> bool {
    exists|r: usize|
        r < rows.len() && #[trigger] row_fails_with(rows[r as int], r, e) && (forall|q: int|
            0 <= q < r ==> row_ok(#[trigger] rows[q]))
}

/// The agents of a table, one per row, in the order of the rows.
pub open spec fn table_agents(rows: Seq<Seq<Seq<char>>>) -> Seq<AgentModel> {
    Seq::new(rows.len(), |r: int| row_agent(rows[r]))
}

/// The agents of the table `rows`, or the error of its first row that is
/// not an agent. Rows are numbered from 0.
pub fn parse_rows(rows: &Vec<Vec<String>>) -> (res: Result<Vec<Agent>, InputError>)
    ensures
        match res {
            Ok(agents) => {
                &&& forall|r: int| 0 <= r < rows@.len() ==> row_ok(#[trigger] rows_model(rows@)[r])
                &&& model_of(agents@) == table_agents(rows_model(rows@))
            },
            Err(e) => table_fails_with(rows_model(rows@), e),
        },
{
    let ghost model = rows_model(rows@);
    let mut agents: Vec<Agent> = Vec::new();
    let mut r: usize = 0;
    while r < rows.len()
        invariant
            r <= rows.len(),
            model == rows_model(rows@),
            agents@.len() == r,
            forall|q: int| 0 <= q < r ==> row_ok(#[trigger] model[q]),
            forall|q: int| 0 <= q < r ==> (#[trigger] agents@[q])@ == row_agent(model[q]),
        decreases rows.len() - r,
    {
        assert(model[r as int] == fields_model(rows@[r as int]@));
        match parse_row(&rows[r], r) {
            Ok(agent) => {
                agents.push(agent);
            },
            Err(e) => {
                proof {
                    assert(row_fails_with(model[r as int], r, e));
                }
                return Err(e);
            },
        }
        r = r + 1;
    }
    proof {
        assert(model_of(agents@) =~= table_agents(model));
    }
    Ok(agents)
}

} // verus!
