use vstd::prelude::*;
use vstd::string::*;
use crate::ast::{BinaryOperator, UnaryOperator};
use crate::error::QueryError;
use crate::json::{int_value, trunc_div, Json, JsonNumber, JsonV, NumV};

verus! {

/// The decimal text of `-x` for the decimal text of `x`.
pub open spec fn negated_text(s: Seq<char>) -> Seq<char> {
    if s.len() > 0 && s[0] == '-' {
        s.drop_first()
    } else {
        seq!['-'] + s
    }
}

/// What a unary operator gives on a value.
pub open spec fn unary_result(op: UnaryOperator, v: JsonV) -> Result<JsonV, QueryError> {
    match op {
        UnaryOperator::Plus => Ok(v),
        UnaryOperator::Minus => match v {
            JsonV::Num(NumV::Int(n)) => int_value(-n),
            JsonV::Num(NumV::Float(s)) => Ok(JsonV::Num(NumV::Float(negated_text(s)))),
            _ => Err(QueryError::UnaryMinusNotNumber),
        },
        UnaryOperator::Not => match v {
            JsonV::Bool(b) => Ok(JsonV::Bool(!b)),
            _ => Err(QueryError::NotRequiresBoolean),
        },
        UnaryOperator::Other(s) => Err(QueryError::UnsupportedUnaryOp(s)),
    }
}

/// The exact result of an arithmetic operator on two integers.
pub open spec fn int_arith(op: BinaryOperator, a: int, b: int) -> Result<JsonV, QueryError> {
    match op {
        BinaryOperator::Plus => int_value(a + b),
        BinaryOperator::Minus => int_value(a - b),
        BinaryOperator::Multiply => int_value(a * b),
        BinaryOperator::Divide => if b == 0 {
            Err(QueryError::DivisionByZero)
        } else {
            int_value(trunc_div(a, b))
        },
        BinaryOperator::Eq => Ok(JsonV::Bool(a == b)),
        BinaryOperator::Lt => Ok(JsonV::Bool(a < b)),
        BinaryOperator::LtEq => Ok(JsonV::Bool(a <= b)),
        BinaryOperator::Gt => Ok(JsonV::Bool(a > b)),
        BinaryOperator::GtEq => Ok(JsonV::Bool(a >= b)),
        BinaryOperator::Other(s) => Err(QueryError::UnsupportedBinaryOp(s)),
    }
}

/// What a binary operator gives on two numbers.
pub open spec fn numeric_result(op: BinaryOperator, a: NumV, b: NumV) -> Result<JsonV, QueryError> {
    match op {
        BinaryOperator::Other(s) => Err(QueryError::UnsupportedBinaryOp(s)),
        _ => match (a, b) {
            (NumV::Int(x), NumV::Int(y)) => int_arith(op, x, y),
            _ => Err(QueryError::FloatOperand),
        },
    }
}

/// What a binary operator gives on two values.
pub open spec fn binary_result(op: BinaryOperator, a: JsonV, b: JsonV) -> Result<JsonV, QueryError> {
    match (a, b) {
        (JsonV::Num(x), JsonV::Num(y)) => numeric_result(op, x, y),
        _ => Err(QueryError::NonNumericOperands),
    }
}

pub open spec fn is_arithmetic(op: BinaryOperator) -> bool {
    op is Plus || op is Minus || op is Multiply || op is Divide
}

pub open spec fn is_comparison(op: BinaryOperator) -> bool {
    op is Eq || op is Lt || op is LtEq || op is Gt || op is GtEq
}

/// An integer result as a JSON value, or the overflow error.
fn int_json(v: i128) -> (r: Result<Json, QueryError>)
    ensures
        match (r, int_value(v as int)) {
            (Ok(j), Ok(w)) => j@ == w,
            (Err(e), Err(f)) => e == f,
            _ => false,
        },
{
    if i64::MIN as i128 <= v && v <= u64::MAX as i128 {
        Ok(Json::Number(JsonNumber::from_int(v)))
    } else {
        Err(QueryError::NumericOverflow)
    }
}

fn negate_float_text(s: &String) -> (r: String)
    ensures
        r@ == negated_text(s@),
{
    let t = s.as_str();
    let n = t.unicode_len();
    if n > 0 && t.get_char(0) == '-' {
        let rest = t.substring_char(1, n);
        proof {
            assert(rest@ =~= s@.drop_first());
        }
        String::from_str(rest)
    } else {
        let minus = String::from_str("-");
        proof {
            reveal_strlit("-");
        }
        let r = minus.concat(t);
        proof {
            assert(r@ =~= seq!['-'] + s@);
        }
        r
    }
}

/// Applies a unary operator to a value.
pub fn execute_unary_op(param: &Json, op: &UnaryOperator) -> (r: Result<Json, QueryError>)
    ensures
        match (r, unary_result(*op, param@)) {
            (Ok(j), Ok(w)) => j@ == w,
            (Err(e), Err(f)) => e == f,
            _ => false,
        },
{
    match op {
        UnaryOperator::Plus => Ok(param.copy()),
        UnaryOperator::Minus => match param {
            Json::Number(n) => match n {
                JsonNumber::Float(s) => Ok(Json::Number(JsonNumber::Float(negate_float_text(s)))),
                _ => int_json(-n.int_of()),
            },
            _ => Err(QueryError::UnaryMinusNotNumber),
        },
        UnaryOperator::Not => match param {
            Json::Bool(b) => Ok(Json::Bool(!*b)),
            _ => Err(QueryError::NotRequiresBoolean),
        },
        UnaryOperator::Other(s) => Err(QueryError::UnsupportedUnaryOp(s.clone())),
    }
}

fn abs_u128(v: i128) -> (r: u128)
    requires
        v > i128::MIN,
    ensures
        r as int == vstd::math::abs(v as int),
{
    if v < 0 {
        (-v) as u128
    } else {
        v as u128
    }
}

fn int_arith_exec(op: &BinaryOperator, a: i128, b: i128) -> (r: Result<Json, QueryError>)
    requires
        i64::MIN <= a <= u64::MAX,
        i64::MIN <= b <= u64::MAX,
    ensures
        match (r, int_arith(*op, a as int, b as int)) {
            (Ok(j), Ok(w)) => j@ == w,
            (Err(e), Err(f)) => e == f,
            _ => false,
        },
{
    match op {
        BinaryOperator::Plus => int_json(a + b),
        BinaryOperator::Minus => int_json(a - b),
        BinaryOperator::Multiply => {
            let x = abs_u128(a);
            let y = abs_u128(b);
            let lim: u128 = 36893488147419103230;
            if y != 0 && x > lim / y {
                proof {
                    assert((x as int) * (y as int) > lim as int) by (nonlinear_arith)
                        requires
                            y != 0,
                            x > lim / y,
                    ;
                    assert(vstd::math::abs(a * b) == (x as int) * (y as int)) by (nonlinear_arith)
                        requires
                            x == vstd::math::abs(a as int),
                            y == vstd::math::abs(b as int),
                    ;
                }
                Err(QueryError::NumericOverflow)
            } else {
                proof {
                    assert((x as int) * (y as int) <= lim as int) by (nonlinear_arith)
                        requires
                            y == 0 || x <= lim / y,
                    ;
                    assert(vstd::math::abs(a * b) == (x as int) * (y as int)) by (nonlinear_arith)
                        requires
                            x == vstd::math::abs(a as int),
                            y == vstd::math::abs(b as int),
                    ;
                }
                int_json(a * b)
            }
        },
        BinaryOperator::Divide => {
            if b == 0 {
                Err(QueryError::DivisionByZero)
            } else {
                let x = abs_u128(a);
                let y = abs_u128(b);
                let q = x / y;
                proof {
                    assert(q <= x) by (nonlinear_arith)
                        requires
                            q == x / y,
                            y > 0,
                    ;
                }
                if (a >= 0) == (b > 0) {
                    int_json(q as i128)
                } else {
                    int_json(-(q as i128))
                }
            }
        },
        BinaryOperator::Eq => Ok(Json::Bool(a == b)),
        BinaryOperator::Lt => Ok(Json::Bool(a < b)),
        BinaryOperator::LtEq => Ok(Json::Bool(a <= b)),
        BinaryOperator::Gt => Ok(Json::Bool(a > b)),
        BinaryOperator::GtEq => Ok(Json::Bool(a >= b)),
        BinaryOperator::Other(s) => Err(QueryError::UnsupportedBinaryOp(s.clone())),
    }
}

/// Applies a binary operator to two numbers.
pub fn execute_binary_op_numeric(n1: &JsonNumber, n2: &JsonNumber, op: &BinaryOperator) -> (r: Result<Json, QueryError>)
    ensures
        match (r, numeric_result(*op, n1@, n2@)) {
            (Ok(j), Ok(w)) => j@ == w,
            (Err(e), Err(f)) => e == f,
            _ => false,
        },
{
    if let BinaryOperator::Other(s) = op {
        return Err(QueryError::UnsupportedBinaryOp(s.clone()));
    }
    if !n1.is_int_exec() || !n2.is_int_exec() {
        return Err(QueryError::FloatOperand);
    }
    int_arith_exec(op, n1.int_of(), n2.int_of())
}

/// Applies a binary operator to two values.
pub fn execute_binary_op(a: &Json, b: &Json, op: &BinaryOperator) -> (r: Result<Json, QueryError>)
    ensures
        match (r, binary_result(*op, a@, b@)) {
            (Ok(j), Ok(w)) => j@ == w,
            (Err(e), Err(f)) => e == f,
            _ => false,
        },
{
    match (a, b) {
        (Json::Number(n1), Json::Number(n2)) => execute_binary_op_numeric(n1, n2, op),
        _ => Err(QueryError::NonNumericOperands),
    }
}

} // verus!
