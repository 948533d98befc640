//! Integer, floating-point, character, tuple, array, vector and slice
//! behavior that the rest of the crate leans on.

fn new_pixel_buffer(rows: usize, cols: usize) -> Vec<u8> {
    vec![0; rows * cols]
}

fn sum(n: &[f64]) -> f64 {
    let mut result = 0.0;
    for elt in n {
        result += elt;
    }
    result
}

#[test]
fn test_as() {
    assert_eq!(10_i8 as u16, 10_u16); // in-range
    assert_eq!(2525_u16 as i16, 2525_i16); // in-range

    assert_eq!(-1_i16 as i32, -1_i32); // sign-extended
    assert_eq!(65535_u16 as i32, 65535_i32); // zero-extended

    // Conversions that are out of range for the destination
    // produce values equivalent to the original modulo 2^N,
    // where N is the width of the destination in bits.
    assert_eq!(1000_i16 as u8, 232_u8);

    assert_eq!(65535_u32 as i16, -1_i16);

    assert_eq!(-1_i8 as u8, 255_u8);
    assert_eq!(255_u8 as i8, -1_i8);
}

#[test]
fn test_int_impl() {
    assert_eq!(2_u16.pow(4), 16); // exponentiation
    assert_eq!((-4_i32).abs(), 4); // absolute value
    assert_eq!(0b101101_u8.count_ones(), 4); // population count (bit count)
}

#[test]
fn test_err() {
    assert_eq!((-4_i32).abs(), 4);
    assert_eq!(i32::abs(-4), 4);

    // Method calls bind tighter than unary minus: without the parentheses the
    // `abs` call applies to the positive literal and the minus to its result.
    assert_eq!(-4_i32.abs(), -4);
}

#[test]
fn test_checked_ops() {
    // The sum of 10 and 20 can be represented as a u8.
    assert_eq!(10_u8.checked_add(20), Some(30));

    // Unfortunately, the sum of 100 and 200 cannot.
    assert_eq!(100_u8.checked_add(200), None);

    // Oddly, signed division can overflow too, in one particular case.
    // A signed n-bit type can represent -2^{n-1}, but not 2^{n-1}.
    assert_eq!((-128_i8).checked_div(-1), None);
    assert_eq!((127_i8).checked_div(-1), Some(-127));
}

#[test]
fn test_wrapping_mul() {
    // The first product can be represented as a u16;
    // the second cannot, so we get 250000 modulo 2^{16}.
    assert_eq!(100_u16.wrapping_mul(200), 20000);
    assert_eq!(500_u16.wrapping_mul(500), 53392);

    // Operations on signed types may wrap to negative values.
    assert_eq!(500_i16.wrapping_mul(500), -12144);

    // In bitwise shift operations, the shift distance
    // is wrapped to fall within the size of the value.
    // So a shift of 17 bits in a 16-bit type is a shift of 1.
    assert_eq!(5_i16.wrapping_shl(17), 10);
    assert_eq!(5_i16.wrapping_shl(1), 10);
    assert_eq!(5_i16.wrapping_shl(2), 20);
    assert_eq!(5_i16.wrapping_shl(3), 40);
}

#[test]
fn test_saturating_add_sub() {
    assert_eq!(32760_i16.saturating_add(10), 32767);
    assert_eq!((-32760_i16).saturating_sub(10), -32768);
}

#[test]
fn test_overflowing_add_sub() {
    assert_eq!(255_u8.overflowing_sub(2), (253, false));
    assert_eq!(255_u8.overflowing_sub(3), (252, false));
    assert_eq!(255_u8.overflowing_add(2), (1, true));
    assert_eq!(255_u8.overflowing_add(3), (2, true));

    // A shift of 17 bits is too large for `u16`, and 17 modulo 16 is 1.
    assert_eq!(5_u16.overflowing_shl(17), (10, true));
}

#[test]
fn test_floating_points() {
    assert!((-1. / f32::INFINITY).is_sign_negative());
    assert_eq!(-f32::MIN, f32::MAX);

    assert_eq!((-1. / f32::INFINITY), -0.);
    assert_eq!(-f32::MIN, 3.4028235e38);
    assert_eq!(-f32::MAX, -3.4028235e38);

    assert_eq!(5f32.sqrt() * 5f32.sqrt(), 5.); // exactly 5.0, per IEEE
    assert_eq!((-1.01f64).floor(), -2.0);
    assert_eq!(5f32.sqrt(), 2.236068);

    assert_eq!((2.0_f64).sqrt(), 1.4142135623730951);
    assert_eq!(f64::sqrt(2.0), 1.4142135623730951);
}

#[test]
fn test_bool() {
    assert_eq!(false as i32, 0);
    assert_eq!(true as i32, 1);
}

#[test]
fn test_character() {
    assert_eq!('\x2A', '*');
    assert_eq!('\u{2A}', '*');

    assert_eq!('*' as i32, 42);
    assert_eq!('\u{CA0}' as u16, 0xca0);
    assert_eq!('\u{CA0}' as i8, -0x60); // U+0CA0 truncated to eight bits, signed
}

#[test]
fn test_tuple() {
    let v = [1, 2, 3, 4, 5, 6];
    let (left, right) = v.split_at(3);
    assert_eq!(left, [1, 2, 3]);
    assert_eq!(right, [4, 5, 6]);

    let text = "I see the eigenvalue in thine eye";
    let (head, tail) = text.split_at(21);
    assert_eq!(head, "I see the eigenvalue ");
    assert_eq!(tail, "in thine eye");

    let tmp = text.split_at(21);
    assert_eq!(tmp.0, "I see the eigenvalue ");
    assert_eq!(tmp.1, "in thine eye");
}

#[test]
fn test_pointer() {
    let tuple = ((0, 0), (1440, 900));
    assert_eq!(tuple.0, (0, 0));

    let t = (12, "eggs");
    let b = Box::new(t); // allocate a tuple in the heap
    assert_eq!(b.0, 12);
    assert_eq!(b.1, "eggs");

    let array = [0, 1];
    assert_eq!(array.len(), 2);
    assert_eq!(array[0], 0);
    assert_eq!(array[1], 1);

    let mut vector = Vec::new();
    vector.push(0);
    vector.push(1);
    assert_eq!(array.len(), 2);
    assert_eq!(array[0], 0);
    assert_eq!(array[1], 1);

    let slice = &[0, 1];
    assert_eq!(slice.len(), 2);
    assert_eq!(array[0], 0);
    assert_eq!(array[1], 1);
}

#[test]
fn test_array() {
    let lazy_caterer: [u32; 6] = [1, 2, 4, 7, 11, 16];
    let taxonomy = ["Animalia", "Arthropoda", "Insecta"];
    assert_eq!(lazy_caterer[3], 7);
    assert_eq!(taxonomy.len(), 3);

    let mut sieve = [true; 10000];
    for i in 2..100 {
        if sieve[i] {
            let mut j: usize = i * i;
            while j < 10000 {
                sieve[j] = false;
                j += i;
            }
        }
    }

    assert!(sieve[211]);
    assert!(!sieve[9876]);

    let mut chaos = [3, 5, 4, 1, 2];
    chaos.sort();
    assert_eq!(chaos, [1, 2, 3, 4, 5]);

    let mut primes = vec![2, 3, 5, 7];
    assert_eq!(primes.iter().product::<i32>(), 210);
    primes.push(11);
    primes.push(13);
    assert_eq!(primes.iter().product::<i32>(), 30030);

    let pixel_buffer = new_pixel_buffer(2, 2);
    assert_eq!(pixel_buffer.len(), 4);
    assert_eq!(pixel_buffer[0], 0);
    assert_eq!(pixel_buffer[1], 0);
    assert_eq!(pixel_buffer[2], 0);
    assert_eq!(pixel_buffer[3], 0);

    let mut pal = Vec::new();
    pal.push("step");
    pal.push("on");
    pal.push("no");
    pal.push("pets");
    assert_eq!(pal, vec!["step", "on", "no", "pets"]);

    let v: Vec<i32> = (0..5).collect();
    assert_eq!(v, [0, 1, 2, 3, 4]);

    // A palindrome!
    let mut palindrone = vec!["a man", "a plan", "a canal", "panama"];
    palindrone.reverse();
    // Reasonable yet disappointing:
    assert_eq!(palindrone, vec!["panama", "a canal", "a plan", "a man"]);

    let reverse: Vec<_> = palindrone
        .clone()
        .into_iter()
        .map(|s| s.chars().rev().collect::<String>())
        .collect();
    assert_eq!(reverse, vec!["amanap", "lanac a", "nalp a", "nam a"]);

    let reverse: Vec<String> = palindrone
        .clone()
        .into_iter()
        .map(|s| s.chars().rev().collect())
        .collect();
    assert_eq!(reverse, vec!["amanap", "lanac a", "nalp a", "nam a"]);
}

#[test]
fn test_vec_with_capacity() {
    let mut v = Vec::with_capacity(2);
    assert_eq!(v.len(), 0);
    assert_eq!(v.capacity(), 2);

    v.push(1);
    v.push(2);
    assert_eq!(v.len(), 2);
    assert_eq!(v.capacity(), 2);

    v.push(3);
    assert_eq!(v.len(), 3);
    assert_eq!(v.capacity(), 4);
}

#[test]
fn test_vec_insert_remove() {
    let mut v = vec![10, 20, 30, 40, 50];

    // Make the element at index 3 be 35.
    v.insert(3, 35);
    assert_eq!(v, [10, 20, 30, 35, 40, 50]);

    // Remove the element at index 1.
    v.remove(1);
    assert_eq!(v, [10, 30, 35, 40, 50]);
}

#[test]
fn test_vec_pop() {
    let mut v = vec!["Snow Puff", "Glass Gem"];
    assert_eq!(v.len(), 2);
    assert_eq!(v.pop(), Some("Glass Gem"));
    assert_eq!(v.pop(), Some("Snow Puff"));
    assert_eq!(v.len(), 0);
    assert_eq!(v.pop(), None);
    assert_eq!(v.len(), 0);
}

#[test]
fn test_slice() {
    let v: Vec<f64> = vec![0.0, 0.707, 1.0, 0.707];
    let a: [f64; 4] = [0.0, -0.707, 1.0, -0.707];

    let sv: &[f64] = &v;
    let sa: &[f64] = &a;

    assert_eq!(sum(&v), 2.4139999999999997); // works on vectors
    assert_eq!(sum(&a), -0.4139999999999999); // works on arrays

    assert_eq!(sum(sv), 2.4139999999999997);
    assert_eq!(sum(sa), -0.4139999999999999);

    assert_eq!(v.len(), 4);
    assert_eq!(a.len(), 4);

    assert_eq!(sv.len(), 4);
    assert_eq!(sa.len(), 4);

    assert_eq!(sum(&v[0..2]), 0.707);
    assert_eq!(sum(&a[0..2]), -0.707);
    assert_eq!(sum(&sv[0..2]), 0.707);
    assert_eq!(sum(&sa[0..2]), -0.707);
}
