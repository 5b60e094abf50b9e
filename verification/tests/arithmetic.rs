use train_game::error::ArithmeticError;
use train_game::evaluate::operate;
use train_game::math::factorial;
use train_game::math::factorial_table;
use train_game::math::safe_shift;
use train_game::math::train_game_div;
use train_game::math::train_game_mod;
use train_game::math::train_game_pow;
use train_game::operator::Operator;

#[test]
fn division_gives_the_exact_quotient() {
    assert_eq!(train_game_div(12, 4), Ok(3));
    assert_eq!(train_game_div(-12, 4), Ok(-3));
    assert_eq!(train_game_div(12, -4), Ok(-3));
    assert_eq!(train_game_div(-12, -4), Ok(3));
    assert_eq!(train_game_div(0, 7), Ok(0));
    assert_eq!(train_game_div(i128::MIN, 1), Ok(i128::MIN));
    assert_eq!(train_game_div(i128::MAX, -1), Ok(-i128::MAX));
    assert_eq!(train_game_div(i128::MIN, 2), Ok(i128::MIN / 2));
}

#[test]
fn division_by_zero_is_a_division_error() {
    assert_eq!(train_game_div(5, 0), Err(ArithmeticError::DivisionError));
    assert_eq!(train_game_div(0, 0), Err(ArithmeticError::DivisionError));
    assert_eq!(train_game_div(i128::MIN, 0), Err(ArithmeticError::DivisionError));
}

#[test]
fn division_with_a_remainder_is_a_division_error() {
    assert_eq!(train_game_div(7, 2), Err(ArithmeticError::DivisionError));
    assert_eq!(train_game_div(-7, 2), Err(ArithmeticError::DivisionError));
    assert_eq!(train_game_div(1, 9), Err(ArithmeticError::DivisionError));
    assert_eq!(train_game_div(i128::MAX, 2), Err(ArithmeticError::DivisionError));
}

#[test]
fn division_of_the_least_value_by_minus_one_overflows() {
    assert_eq!(train_game_div(i128::MIN, -1), Err(ArithmeticError::Overflow));
}

#[test]
fn divide_then_multiply_gives_the_dividend_back() {
    let dividends: [i128; 9] = [0, 1, -1, 12, -12, 362880, i128::MAX, i128::MIN, -i128::MAX];
    let divisors: [i128; 8] = [1, -1, 2, -2, 3, 4, 12, -362880];
    let mut checked: usize = 0;
    for dividend in dividends {
        for divisor in divisors {
            if dividend == i128::MIN && divisor == -1 {
                continue;
            }
            if dividend % divisor != 0 {
                continue;
            }
            let quotient = operate(dividend, divisor, Operator::Divide).unwrap();
            assert_eq!(operate(quotient, divisor, Operator::Multiply), Ok(dividend));
            checked += 1;
        }
    }
    assert!(checked > 20);
}

#[test]
fn remainder_takes_the_sign_of_the_dividend() {
    assert_eq!(train_game_mod(7, 3), Ok(1));
    assert_eq!(train_game_mod(-7, 3), Ok(-1));
    assert_eq!(train_game_mod(7, -3), Ok(1));
    assert_eq!(train_game_mod(-7, -3), Ok(-1));
    assert_eq!(train_game_mod(6, 3), Ok(0));
    assert_eq!(train_game_mod(0, 5), Ok(0));
    assert_eq!(train_game_mod(2, 9), Ok(2));
    assert_eq!(train_game_mod(i128::MIN, -1), Ok(0));
    assert_eq!(train_game_mod(i128::MIN, 10), Ok(-8));
    assert_eq!(train_game_mod(i128::MAX, 10), Ok(7));
}

#[test]
fn remainder_by_zero_is_a_division_error() {
    assert_eq!(train_game_mod(5, 0), Err(ArithmeticError::DivisionError));
    assert_eq!(train_game_mod(0, 0), Err(ArithmeticError::DivisionError));
}

#[test]
fn zero_to_the_power_zero_is_undefined() {
    assert_eq!(train_game_pow(0, 0), Err(ArithmeticError::UndefinedError));
    assert_eq!(operate(0, 0, Operator::Power), Err(ArithmeticError::UndefinedError));
}

#[test]
fn powers_are_exact() {
    assert_eq!(train_game_pow(2, 10), Ok(1024));
    assert_eq!(train_game_pow(3, 0), Ok(1));
    assert_eq!(train_game_pow(-3, 3), Ok(-27));
    assert_eq!(train_game_pow(-3, 4), Ok(81));
    assert_eq!(train_game_pow(0, 5), Ok(0));
    assert_eq!(train_game_pow(0, 4294967295), Ok(0));
    assert_eq!(train_game_pow(1, 4294967295), Ok(1));
    assert_eq!(train_game_pow(-1, 4294967295), Ok(-1));
    assert_eq!(train_game_pow(-1, 4294967294), Ok(1));
    assert_eq!(train_game_pow(9, 9), Ok(387420489));
    assert_eq!(train_game_pow(2, 126), Ok(1i128 << 126));
    assert_eq!(train_game_pow(-2, 127), Ok(i128::MIN));
    assert_eq!(
        train_game_pow(10, 38),
        Ok(100000000000000000000000000000000000000)
    );
}

#[test]
fn powers_that_do_not_fit_overflow() {
    assert_eq!(train_game_pow(2, 127), Err(ArithmeticError::Overflow));
    assert_eq!(train_game_pow(-2, 128), Err(ArithmeticError::Overflow));
    assert_eq!(train_game_pow(10, 39), Err(ArithmeticError::Overflow));
    assert_eq!(train_game_pow(362880, 362880), Err(ArithmeticError::Overflow));
    assert_eq!(train_game_pow(2, 4294967295), Err(ArithmeticError::Overflow));
    assert_eq!(train_game_pow(i128::MAX, 2), Err(ArithmeticError::Overflow));
    assert_eq!(train_game_pow(i128::MIN, 2), Err(ArithmeticError::Overflow));
    assert_eq!(train_game_pow(i128::MIN, 1), Ok(i128::MIN));
}

#[test]
fn exponents_out_of_range_are_range_errors() {
    assert_eq!(train_game_pow(2, -1), Err(ArithmeticError::RangeError));
    assert_eq!(train_game_pow(0, -1), Err(ArithmeticError::RangeError));
    assert_eq!(train_game_pow(1, 4294967296), Err(ArithmeticError::RangeError));
    assert_eq!(train_game_pow(0, 4294967296), Err(ArithmeticError::RangeError));
    assert_eq!(train_game_pow(2, i128::MAX), Err(ArithmeticError::RangeError));
}

#[test]
fn shifts_move_bits() {
    assert_eq!(safe_shift(1, 3, Operator::ShiftLeft), Ok(8));
    assert_eq!(safe_shift(-8, 1, Operator::ShiftRight), Ok(-4));
    assert_eq!(safe_shift(-1, 127, Operator::ShiftRight), Ok(-1));
    assert_eq!(safe_shift(5, 0, Operator::ShiftLeft), Ok(5));
    assert_eq!(safe_shift(5, 0, Operator::ShiftRight), Ok(5));
    assert_eq!(safe_shift(1, 127, Operator::ShiftLeft), Ok(i128::MIN));
    assert_eq!(safe_shift(3, 127, Operator::ShiftLeft), Ok(i128::MIN));
    assert_eq!(safe_shift(i128::MAX, 126, Operator::ShiftRight), Ok(1));
    assert_eq!(safe_shift(9, 120, Operator::ShiftRight), Ok(0));
}

#[test]
fn shift_right_divides_and_rounds_down() {
    assert_eq!(safe_shift(-7, 1, Operator::ShiftRight), Ok(-4));
    assert_eq!(safe_shift(7, 1, Operator::ShiftRight), Ok(3));
    assert_eq!(safe_shift(-1, 5, Operator::ShiftRight), Ok(-1));
    assert_eq!(safe_shift(1000, 3, Operator::ShiftRight), Ok(125));
    assert_eq!(safe_shift(i128::MIN, 127, Operator::ShiftRight), Ok(-1));
}

#[test]
fn shift_left_multiplies_where_the_product_fits() {
    assert_eq!(safe_shift(5, 3, Operator::ShiftLeft), Ok(40));
    assert_eq!(safe_shift(-5, 3, Operator::ShiftLeft), Ok(-40));
    assert_eq!(safe_shift(362880, 9, Operator::ShiftLeft), Ok(362880 * 512));
    assert_eq!(safe_shift(-1, 127, Operator::ShiftLeft), Ok(i128::MIN));
    assert_eq!(safe_shift(0, 128, Operator::ShiftLeft), Ok(0));
}

#[test]
fn any_operator_but_shift_right_shifts_left() {
    assert_eq!(safe_shift(1, 4, Operator::Add), Ok(16));
    assert_eq!(safe_shift(1, 4, Operator::Power), Ok(16));
}

#[test]
fn shift_by_the_full_width_moves_every_bit_out() {
    assert_eq!(safe_shift(5, 128, Operator::ShiftLeft), Ok(0));
    assert_eq!(safe_shift(-5, 128, Operator::ShiftLeft), Ok(0));
    assert_eq!(safe_shift(5, 128, Operator::ShiftRight), Ok(0));
    assert_eq!(safe_shift(-5, 128, Operator::ShiftRight), Ok(-1));
}

#[test]
fn shift_amounts_out_of_range_are_range_errors() {
    assert_eq!(safe_shift(1, 129, Operator::ShiftLeft), Err(ArithmeticError::RangeError));
    assert_eq!(safe_shift(1, 129, Operator::ShiftRight), Err(ArithmeticError::RangeError));
    assert_eq!(safe_shift(1, 720, Operator::ShiftLeft), Err(ArithmeticError::RangeError));
    assert_eq!(safe_shift(1, -1, Operator::ShiftLeft), Err(ArithmeticError::RangeError));
    assert_eq!(safe_shift(1, -1, Operator::ShiftRight), Err(ArithmeticError::RangeError));
    assert_eq!(safe_shift(0, i128::MAX, Operator::ShiftRight), Err(ArithmeticError::RangeError));
}

#[test]
fn table_holds_the_factorials_computed_step_by_step() {
    let table = factorial_table();
    assert_eq!(table.len(), 34);
    let mut expected: i128 = 1;
    for n in 0..34i128 {
        if n > 0 {
            expected = expected * n;
        }
        assert_eq!(table[n as usize], expected);
        assert_eq!(factorial(n, &table), Ok(expected));
    }
}

#[test]
fn factorial_of_small_numbers() {
    let table = factorial_table();
    assert_eq!(factorial(0, &table), Ok(1));
    assert_eq!(factorial(1, &table), Ok(1));
    assert_eq!(factorial(5, &table), Ok(120));
    assert_eq!(factorial(9, &table), Ok(362880));
}

#[test]
fn factorial_of_thirty_three_fits() {
    let table = factorial_table();
    assert_eq!(factorial(33, &table), Ok(8683317618811886495518194401280000000));
}

#[test]
fn factorial_of_thirty_four_is_a_range_error() {
    let table = factorial_table();
    assert_eq!(factorial(34, &table), Err(ArithmeticError::RangeError));
    assert_eq!(factorial(i128::MAX, &table), Err(ArithmeticError::RangeError));
}

#[test]
fn factorial_of_a_negative_number_is_a_range_error() {
    let table = factorial_table();
    assert_eq!(factorial(-1, &table), Err(ArithmeticError::RangeError));
    assert_eq!(factorial(i128::MIN, &table), Err(ArithmeticError::RangeError));
}

#[test]
fn factorial_reads_the_table_it_is_given() {
    let table: Vec<i128> = vec![7, 8, 9];
    assert_eq!(factorial(2, &table), Ok(9));
    assert_eq!(factorial(40, &table), Err(ArithmeticError::RangeError));
}

#[test]
fn sums_differences_and_products_are_checked() {
    assert_eq!(operate(2, 3, Operator::Add), Ok(5));
    assert_eq!(operate(2, 3, Operator::Subtract), Ok(-1));
    assert_eq!(operate(2, 3, Operator::Multiply), Ok(6));
    assert_eq!(operate(i128::MAX, 1, Operator::Add), Err(ArithmeticError::Overflow));
    assert_eq!(operate(i128::MIN, -1, Operator::Add), Err(ArithmeticError::Overflow));
    assert_eq!(operate(i128::MIN, 1, Operator::Subtract), Err(ArithmeticError::Overflow));
    assert_eq!(operate(0, i128::MIN, Operator::Subtract), Err(ArithmeticError::Overflow));
    assert_eq!(operate(i128::MAX, 2, Operator::Multiply), Err(ArithmeticError::Overflow));
    assert_eq!(operate(i128::MIN, -1, Operator::Multiply), Err(ArithmeticError::Overflow));
    assert_eq!(operate(i128::MAX, 0, Operator::Add), Ok(i128::MAX));
}

#[test]
fn bitwise_operators_never_fail() {
    assert_eq!(operate(12, 10, Operator::BitAnd), Ok(8));
    assert_eq!(operate(12, 10, Operator::BitOr), Ok(14));
    assert_eq!(operate(12, 10, Operator::BitXor), Ok(6));
    assert_eq!(operate(-1, 10, Operator::BitAnd), Ok(10));
    assert_eq!(operate(i128::MIN, i128::MAX, Operator::BitOr), Ok(-1));
    assert_eq!(operate(i128::MIN, i128::MIN, Operator::BitXor), Ok(0));
}

#[test]
fn operate_hands_each_operator_to_its_function() {
    assert_eq!(operate(12, 4, Operator::Divide), Ok(3));
    assert_eq!(operate(12, 5, Operator::Divide), Err(ArithmeticError::DivisionError));
    assert_eq!(operate(12, 5, Operator::Modulo), Ok(2));
    assert_eq!(operate(12, 0, Operator::Modulo), Err(ArithmeticError::DivisionError));
    assert_eq!(operate(3, 2, Operator::ShiftLeft), Ok(12));
    assert_eq!(operate(12, 2, Operator::ShiftRight), Ok(3));
    assert_eq!(operate(12, 200, Operator::ShiftRight), Err(ArithmeticError::RangeError));
    assert_eq!(operate(2, 5, Operator::Power), Ok(32));
    assert_eq!(operate(2, -5, Operator::Power), Err(ArithmeticError::RangeError));
}
