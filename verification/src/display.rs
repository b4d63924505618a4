use vstd::prelude::*;

use crate::{
    error::{stage_name, Diagnostic},
    types::Type,
    value::Value,
};

verus! {

/// The decimal digit `d`.
pub open spec fn digit_char(d: nat) -> char {
    (48 + d) as char
}

/// The decimal numeral of `n`, without leading zeros.
pub open spec fn decimal(n: nat) -> Seq<char>
    decreases n,
{
    if n < 10 {
        seq![digit_char(n)]
    } else {
        decimal(n / 10) + seq![digit_char(n % 10)]
    }
}

fn digit_text(d: u64) -> (text: &'static str)
    requires
        d < 10,
    ensures
        text@ == seq![digit_char(d as nat)],
{
    proof {
        reveal_strlit("0");
        reveal_strlit("1");
        reveal_strlit("2");
        reveal_strlit("3");
        reveal_strlit("4");
        reveal_strlit("5");
        reveal_strlit("6");
        reveal_strlit("7");
        reveal_strlit("8");
        reveal_strlit("9");
    }
    match d {
        0 => "0",
        1 => "1",
        2 => "2",
        3 => "3",
        4 => "4",
        5 => "5",
        6 => "6",
        7 => "7",
        8 => "8",
        _ => "9",
    }
}

/// The decimal numeral of `n`.
pub fn decimal_text(n: u64) -> (text: String)
    ensures
        text@ == decimal(n as nat),
    decreases n,
{
    if n < 10 {
        String::from_str(digit_text(n))
    } else {
        decimal_text(n / 10).concat(digit_text(n % 10))
    }
}

/// How a type is written: `int`, `bool`, `'t` and the variable's number, or
/// `input -> output` with a function input in parentheses.
pub open spec fn type_text(t: Type) -> Seq<char>
    decreases t,
{
    match t {
        Type::Int => "int"@,
        Type::Bool => "bool"@,
        Type::Var(id) => "'t"@ + decimal(id as nat),
        Type::Function(input, output) => if *input is Function {
            "("@ + type_text(*input) + ") -> "@ + type_text(*output)
        } else {
            type_text(*input) + " -> "@ + type_text(*output)
        },
    }
}

/// How a value is written: an integer in decimal, `true` or `false`, or `<fun>`.
pub open spec fn value_text(v: Value) -> Seq<char> {
    match v {
        Value::Int(n) => if n < 0 {
            "-"@ + decimal((-n) as nat)
        } else {
            decimal(n as nat)
        },
        Value::Bool(b) => if b {
            "true"@
        } else {
            "false"@
        },
        Value::Closure(_) => "<fun>"@,
    }
}

/// The number that a string of decimal digits writes.
pub open spec fn numeral_value(s: Seq<char>) -> nat
    decreases s.len(),
{
    if s.len() == 0 {
        0
    } else {
        numeral_value(s.drop_last()) * 10 + (s.last() as int - 48) as nat
    }
}

/// `s` is a decimal numeral: one or more digits `0` to `9`, with no leading zero.
pub open spec fn is_numeral(s: Seq<char>) -> bool {
    &&& s.len() > 0
    &&& forall|i: int| 0 <= i < s.len() ==> 48 <= #[trigger] (s[i] as int) <= 57
    &&& s[0] as int == 48 ==> s.len() == 1
}

proof fn lemma_digit_char(d: nat)
    requires
        d < 10,
    ensures
        digit_char(d) as int == 48 + d,
{
    assert(digit_char(d) as int == 48 + d);
}

proof fn lemma_decimal(n: nat)
    ensures
        is_numeral(decimal(n)),
        numeral_value(decimal(n)) == n,
    decreases n,
{
    if n >= 10 {
        lemma_decimal(n / 10);
        let head = decimal(n / 10);
        let t = head + seq![digit_char(n % 10)];
        lemma_digit_char(n % 10);
        assert(decimal(n) == t);
        assert(t.drop_last() =~= head);
        assert(t.last() == digit_char(n % 10));
        assert(numeral_value(t) == numeral_value(head) * 10 + (n % 10));
        assert(n == (n / 10) * 10 + n % 10);
        assert forall|i: int| 0 <= i < t.len() implies 48 <= #[trigger] (t[i] as int) <= 57 by {
            if i < head.len() {
                assert(t[i] == head[i]);
            }
        }
        assert(t[0] == head[0]);
        if head[0] as int == 48 {
            assert(head.len() == 1);
            assert(numeral_value(head) == 0) by {
                assert(head.drop_last() =~= Seq::<char>::empty());
                assert(numeral_value(head.drop_last()) == 0);
                assert(head.last() == head[0]);
            }
        }
    } else {
        let t = seq![digit_char(n)];
        lemma_digit_char(n);
        assert(decimal(n) == t);
        assert(t.drop_last() =~= Seq::<char>::empty());
        assert(numeral_value(t.drop_last()) == 0);
        assert(t.last() == digit_char(n));
    }
}

/// An integer value is written in decimal: a `-` exactly when it is
/// negative (so zero has no sign), then the numeral of its size, without
/// leading zeros.
pub proof fn law_integer_text(n: i64)
    ensures
        ({
            let text = value_text(Value::Int(n));
            &&& text.len() > 0
            &&& (text[0] == '-') <==> n < 0
            &&& n < 0 ==> is_numeral(text.drop_first()) && numeral_value(text.drop_first()) == -n
            &&& n >= 0 ==> is_numeral(text) && numeral_value(text) == n
        }),
{
    reveal_strlit("-");
    if n < 0 {
        lemma_decimal((-n) as nat);
        let text = value_text(Value::Int(n));
        assert(text.drop_first() =~= decimal((-n) as nat));
    } else {
        lemma_decimal(n as nat);
        let text = decimal(n as nat);
        assert(48 <= (text[0] as int) <= 57);
        assert('-' as int == 45);
    }
}

/// How a diagnostic is written: the stage's name, the message and, where the
/// place is known, its byte range.
pub open spec fn diagnostic_text(d: Diagnostic) -> Seq<char> {
    let head = stage_name(d.stage) + ": "@ + d.message@;
    match d.span {
        Some(span) => head + " (bytes "@ + decimal(span.start as nat) + ".."@ + decimal(
            span.end as nat,
        ) + ")"@,
        None => head,
    }
}

impl Type {
    /// The type as it is written.
    pub fn to_text(&self) -> (text: String)
        ensures
            text@ == type_text(*self),
        decreases self,
    {
        match self {
            Type::Int => String::from_str("int"),
            Type::Bool => String::from_str("bool"),
            Type::Var(id) => String::from_str("'t").concat(decimal_text(*id as u64).as_str()),
            Type::Function(input, output) => {
                let input_text = input.to_text();
                let output_text = output.to_text();
                if let Type::Function(..) = **input {
                    String::from_str("(").concat(input_text.as_str()).concat(") -> ").concat(
                        output_text.as_str(),
                    )
                } else {
                    input_text.concat(" -> ").concat(output_text.as_str())
                }
            },
        }
    }
}

impl Value {
    /// The value as it is written.
    pub fn to_text(&self) -> (text: String)
        ensures
            text@ == value_text(*self),
    {
        match self {
            Value::Int(n) => if *n < 0 {
                let magnitude: u64 = if *n == i64::MIN {
                    9223372036854775808
                } else {
                    (-*n) as u64
                };
                String::from_str("-").concat(decimal_text(magnitude).as_str())
            } else {
                decimal_text(*n as u64)
            },
            Value::Bool(b) => if *b {
                String::from_str("true")
            } else {
                String::from_str("false")
            },
            Value::Closure(_) => String::from_str("<fun>"),
        }
    }
}

impl Diagnostic {
    /// The diagnostic as it is written.
    pub fn to_text(&self) -> (text: String)
        ensures
            text@ == diagnostic_text(*self),
    {
        let head = String::from_str(self.stage.name()).concat(": ").concat(self.message.as_str());
        match self.span {
            Some(span) => head.concat(" (bytes ").concat(decimal_text(span.start as u64).as_str()).concat(
                "..",
            ).concat(decimal_text(span.end as u64).as_str()).concat(")"),
            None => head,
        }
    }
}

} // verus!
