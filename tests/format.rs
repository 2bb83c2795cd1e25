use kvs::de::{DecodeError, Deserializer};
use kvs::ser::Serializer;

#[test]
fn test_i8() {
    for v in [i8::MIN, -1_i8, 0_i8, 1_i8, i8::MAX] {
        let mut s = Serializer::new();
        s.serialize_i8(v);
        assert_eq!(format!("b{}\n", v).as_bytes(), s.into_bytes().as_slice());
    }
}

#[test]
fn test_i16() {
    for v in [i16::MIN, -1_i16, 0_i16, 1_i16, i16::MAX] {
        let mut s = Serializer::new();
        s.serialize_i16(v);
        assert_eq!(format!("w{}\n", v).as_bytes(), s.into_bytes().as_slice());
    }
}

#[test]
fn test_i32() {
    for v in [i32::MIN, -1_i32, 0_i32, 1_i32, i32::MAX] {
        let mut s = Serializer::new();
        s.serialize_i32(v);
        assert_eq!(format!("i{}\n", v).as_bytes(), s.into_bytes().as_slice());
    }
}

#[test]
fn test_i64() {
    for v in [i64::MIN, -1_i64, 0_i64, 1_i64, i64::MAX] {
        let mut s = Serializer::new();
        s.serialize_i64(v);
        assert_eq!(format!("d{}\n", v).as_bytes(), s.into_bytes().as_slice());
    }
}

#[test]
fn test_i128() {
    for v in [i128::MIN, -1_i128, 0_i128, 1_i128, i128::MAX] {
        let mut s = Serializer::new();
        s.serialize_i128(v);
        assert_eq!(format!("q{}\n", v).as_bytes(), s.into_bytes().as_slice());
    }
}

#[test]
fn test_u8() {
    for v in [u8::MIN, 1_u8, u8::MAX] {
        let mut s = Serializer::new();
        s.serialize_u8(v);
        assert_eq!(format!("B{}\n", v).as_bytes(), s.into_bytes().as_slice());
    }
}

#[test]
fn test_u16() {
    for v in [u16::MIN, 1_u16, u16::MAX] {
        let mut s = Serializer::new();
        s.serialize_u16(v);
        assert_eq!(format!("W{}\n", v).as_bytes(), s.into_bytes().as_slice());
    }
}

#[test]
fn test_u32() {
    for v in [u32::MIN, 1_u32, u32::MAX] {
        let mut s = Serializer::new();
        s.serialize_u32(v);
        assert_eq!(format!("I{}\n", v).as_bytes(), s.into_bytes().as_slice());
    }
}

#[test]
fn test_u64() {
    for v in [u64::MIN, 1_u64, u64::MAX] {
        let mut s = Serializer::new();
        s.serialize_u64(v);
        assert_eq!(format!("D{}\n", v).as_bytes(), s.into_bytes().as_slice());
    }
}

#[test]
fn test_u128() {
    for v in [u128::MIN, 1_u128, u128::MAX] {
        let mut s = Serializer::new();
        s.serialize_u128(v);
        assert_eq!(format!("Q{}\n", v).as_bytes(), s.into_bytes().as_slice());
    }
}

#[test]
fn tests_test_i8() {
    let input = format!("b{}\nb{}\nb{}\n", i8::MIN, 0_i8, i8::MAX);
    let mut de = Deserializer::new(input.into_bytes());
    assert_eq!(i8::MIN, de.parse_i8().unwrap());
    assert_eq!(0_i8, de.parse_i8().unwrap());
    assert_eq!(i8::MAX, de.parse_i8().unwrap());
}

#[test]
fn tests_test_i16() {
    let input = format!("w{}\nw{}\nw{}\n", i16::MIN, 0_i16, i16::MAX);
    let mut de = Deserializer::new(input.into_bytes());
    assert_eq!(i16::MIN, de.parse_i16().unwrap());
    assert_eq!(0_i16, de.parse_i16().unwrap());
    assert_eq!(i16::MAX, de.parse_i16().unwrap());
}

#[test]
fn tests_test_i32() {
    let input = format!("i{}\ni{}\ni{}\n", i32::MIN, 0_i32, i32::MAX);
    let mut de = Deserializer::new(input.into_bytes());
    assert_eq!(i32::MIN, de.parse_i32().unwrap());
    assert_eq!(0_i32, de.parse_i32().unwrap());
    assert_eq!(i32::MAX, de.parse_i32().unwrap());
}

#[test]
fn tests_test_i64() {
    let input = format!("d{}\nd{}\nd{}\n", i64::MIN, 0_i64, i64::MAX);
    let mut de = Deserializer::new(input.into_bytes());
    assert_eq!(i64::MIN, de.parse_i64().unwrap());
    assert_eq!(0_i64, de.parse_i64().unwrap());
    assert_eq!(i64::MAX, de.parse_i64().unwrap());
}

#[test]
fn tests_test_i128() {
    let input = format!("q{}\nq{}\nq{}\n", i128::MIN, 0_i128, i128::MAX);
    let mut de = Deserializer::new(input.into_bytes());
    assert_eq!(i128::MIN, de.parse_i128().unwrap());
    assert_eq!(0_i128, de.parse_i128().unwrap());
    assert_eq!(i128::MAX, de.parse_i128().unwrap());
}

#[test]
fn tests_test_u8() {
    let input = format!("B{}\nB{}\nB{}\n", u8::MIN, 0_u8, u8::MAX);
    let mut de = Deserializer::new(input.into_bytes());
    assert_eq!(u8::MIN, de.parse_u8().unwrap());
    assert_eq!(0_u8, de.parse_u8().unwrap());
    assert_eq!(u8::MAX, de.parse_u8().unwrap());
}

#[test]
fn tests_test_u16() {
    let input = format!("W{}\nW{}\nW{}\n", u16::MIN, 0_u16, u16::MAX);
    let mut de = Deserializer::new(input.into_bytes());
    assert_eq!(u16::MIN, de.parse_u16().unwrap());
    assert_eq!(0_u16, de.parse_u16().unwrap());
    assert_eq!(u16::MAX, de.parse_u16().unwrap());
}

#[test]
fn tests_test_u32() {
    let input = format!("I{}\nI{}\nI{}\n", u32::MIN, 0_u32, u32::MAX);
    let mut de = Deserializer::new(input.into_bytes());
    assert_eq!(u32::MIN, de.parse_u32().unwrap());
    assert_eq!(0_u32, de.parse_u32().unwrap());
    assert_eq!(u32::MAX, de.parse_u32().unwrap());
}

#[test]
fn tests_test_u64() {
    let input = format!("D{}\nD{}\nD{}\n", u64::MIN, 0_u64, u64::MAX);
    let mut de = Deserializer::new(input.into_bytes());
    assert_eq!(u64::MIN, de.parse_u64().unwrap());
    assert_eq!(0_u64, de.parse_u64().unwrap());
    assert_eq!(u64::MAX, de.parse_u64().unwrap());
}

#[test]
fn tests_test_u128() {
    let input = format!("Q{}\nQ{}\nQ{}\n", u128::MIN, 0_u128, u128::MAX);
    let mut de = Deserializer::new(input.into_bytes());
    assert_eq!(u128::MIN, de.parse_u128().unwrap());
    assert_eq!(0_u128, de.parse_u128().unwrap());
    assert_eq!(u128::MAX, de.parse_u128().unwrap());
}

#[test]
fn test_f32() {
    for v in [f32::MIN, -1_f32, 0_f32, 1_f32, f32::MAX] {
        let mut s = Serializer::new();
        s.serialize_f32_text(&v.to_string());
        assert_eq!(format!("f{}\n", v).as_bytes(), s.into_bytes().as_slice());
    }
}

#[test]
fn tests_test_f32() {
    let input = format!("f{}\nf{}\nf{}\n", f32::MIN, 0_f32, f32::MAX);
    let mut de = Deserializer::new(input.into_bytes());
    for expected in [f32::MIN, 0_f32, f32::MAX] {
        let v: f32 = de.read_f32_text().unwrap().parse().unwrap();
        assert!((expected - v).abs() <= f32::EPSILON);
    }
}

#[test]
fn test_f64() {
    for v in [f64::MIN, -1_f64, 0_f64, 1_f64, f64::MAX] {
        let mut s = Serializer::new();
        s.serialize_f64_text(&v.to_string());
        assert_eq!(format!("F{}\n", v).as_bytes(), s.into_bytes().as_slice());
    }
}

#[test]
fn tests_test_f64() {
    let input = format!("F{}\nF{}\nF{}\n", f64::MIN, 0_f64, f64::MAX);
    let mut de = Deserializer::new(input.into_bytes());
    for expected in [f64::MIN, 0_f64, f64::MAX] {
        let v: f64 = de.read_f64_text().unwrap().parse().unwrap();
        assert!((expected - v).abs() <= f64::EPSILON);
    }
}

#[test]
fn test_bool() {
    let mut s = Serializer::new();
    s.serialize_bool(true);
    assert_eq!("1\n".as_bytes(), s.into_bytes().as_slice());
    let mut s = Serializer::new();
    s.serialize_bool(false);
    assert_eq!("0\n".as_bytes(), s.into_bytes().as_slice());
}

#[test]
fn tests_test_bool() {
    let mut de = Deserializer::new("1\n0\n0\n1\n".as_bytes().to_vec());
    assert_eq!(true, de.parse_bool().unwrap());
    assert_eq!(false, de.parse_bool().unwrap());
    assert_eq!(false, de.parse_bool().unwrap());
    assert_eq!(true, de.parse_bool().unwrap());
}

#[test]
fn test_str() {
    let strs_to_test = [
        "this is a test",
        "THIS",
        "This is also\ra test",
        "This is a\ntest too!",
        "This is\r\nanother test",
        "This is a test with a special char and a chinese char ∑, 𖿢",
        "This is another test\r\nwith chinese char and a special char 𖿢, ∑ too!",
    ];
    for str in strs_to_test {
        let expected = if str.contains(|c| c == '\n') {
            format!("&{}\n{}\n", str.len(), str)
        } else {
            format!("${}\n", str)
        };
        let mut s = Serializer::new();
        s.serialize_str(str);
        assert_eq!(expected.as_bytes(), s.into_bytes().as_slice());
    }
}

#[test]
fn test_bytes() {
    let byte_slices_to_test = [
        "this is a test".as_bytes(),
        "THIS".as_bytes(),
        "This is also\ra test".as_bytes(),
        "This is a\ntest too!".as_bytes(),
        "This is\r\nanother test".as_bytes(),
        "This is a test with a special char and a chinese char ∑, 𖿢".as_bytes(),
        "This is another test\r\nwith chinese char and a special char 𖿢, ∑ too!".as_bytes(),
    ];
    for bytes in byte_slices_to_test {
        let mut expected = format!("%{}\n", bytes.len()).as_bytes().to_vec();
        expected.append(&mut bytes.to_vec());
        expected.append(&mut "\n".as_bytes().to_vec());
        let mut s = Serializer::new();
        s.serialize_bytes(bytes);
        assert_eq!(expected.as_slice(), s.into_bytes().as_slice());
    }
}

#[test]
fn test_none() {
    let mut s = Serializer::new();
    s.serialize_none();
    assert_eq!("!\n".as_bytes(), s.into_bytes().as_slice());
}

#[test]
fn test_some() {
    let mut s = Serializer::new();
    s.serialize_str("This is a test");
    assert_eq!("$This is a test\n".as_bytes(), s.into_bytes().as_slice());
}

#[test]
fn test_char() {
    let min = '\0';
    let max = char::MAX;
    let input = format!("c{}\nc{}\n", min, max);
    let mut de = Deserializer::new(input.into_bytes());
    assert_eq!(min, de.parse_char().unwrap());
    assert_eq!(max, de.parse_char().unwrap());
}

#[test]
fn test_string() {
    let string1 = "This is a test".to_owned();
    let string2 = "This is also\r\na test...∑, 𖿢".to_owned();
    let input = format!("${}\n&{}\n{}\n", string1, string2.len(), string2);
    let mut de = Deserializer::new(input.into_bytes());
    assert_eq!(string1, de.parse_string().unwrap());
    assert_eq!(string2, de.parse_string().unwrap());
}

#[test]
fn test_byte_buf() {
    let string1 = "This is a test".to_owned();
    let string2 = "This is also\r\na test...∑, 𖿢".to_owned();
    let input = format!(
        "%{}\n{}\n%{}\n{}\n",
        string1.len(),
        string1,
        string2.len(),
        string2
    );
    let mut de = Deserializer::new(input.into_bytes());
    assert_eq!(string1.as_bytes(), de.parse_bytes().unwrap().as_slice());
    assert_eq!(string2.as_bytes(), de.parse_bytes().unwrap().as_slice());
}

#[test]
fn test_option() {
    let string1 = "This is a test".to_owned();
    let string2 = "This is also\r\na test...∑, 𖿢".to_owned();
    let num1 = 8_u8;
    let num2 = 16_u16;
    let num3 = 32_u32;
    let num4 = 64_u64;
    let input = format!(
        "${string1}\n!\n&{len_string2}\n{string2}\n!\nB{num1}\nW{num2}\n!\nI{num3}\nD{num4}\n",
        string1 = string1,
        len_string2 = string2.len(),
        string2 = string2,
        num1 = num1,
        num2 = num2,
        num3 = num3,
        num4 = num4
    );
    let mut de = Deserializer::new(input.into_bytes());
    assert!(!de.parse_none());
    assert_eq!(string1, de.parse_string().unwrap());
    assert!(de.parse_none());
    assert!(!de.parse_none());
    assert_eq!(string2, de.parse_string().unwrap());
    assert!(de.parse_none());
    assert!(!de.parse_none());
    assert_eq!(num1, de.parse_u8().unwrap());
    assert!(!de.parse_none());
    assert_eq!(num2, de.parse_u16().unwrap());
    assert!(de.parse_none());
    assert!(!de.parse_none());
    assert_eq!(num3, de.parse_u32().unwrap());
    assert!(!de.parse_none());
    assert_eq!(num4, de.parse_u64().unwrap());
}

#[test]
fn parse_errors_name_their_kind() {
    let mut de = Deserializer::new("D12\n".as_bytes().to_vec());
    assert_eq!(Err(DecodeError::DataError), de.parse_u32());
    let mut de = Deserializer::new("B256\n".as_bytes().to_vec());
    assert_eq!(Err(DecodeError::ParseIntError), de.parse_u8());
    let mut de = Deserializer::new("b-129\n".as_bytes().to_vec());
    assert_eq!(Err(DecodeError::ParseIntError), de.parse_i8());
    let mut de = Deserializer::new("Dtwelve\n".as_bytes().to_vec());
    assert_eq!(Err(DecodeError::ParseIntError), de.parse_u64());
    let mut de = Deserializer::new("D12".as_bytes().to_vec());
    assert_eq!(Err(DecodeError::DataError), de.parse_u64());
    let mut de = Deserializer::new(vec![36u8, 0xff, 10]);
    assert_eq!(Err(DecodeError::FromUtf8Error), de.parse_string());
    let mut de = Deserializer::new("&5\nab\n".as_bytes().to_vec());
    assert_eq!(Err(DecodeError::DataError), de.parse_string());
    let mut de = Deserializer::new("2\n".as_bytes().to_vec());
    assert_eq!(Err(DecodeError::DataError), de.parse_bool());
}

#[test]
fn numbers_read_as_str_parse_reads_them() {
    let mut de = Deserializer::new("D+42\nD007\nd-0\nd+5\n".as_bytes().to_vec());
    assert_eq!(42, de.parse_u64().unwrap());
    assert_eq!(7, de.parse_u64().unwrap());
    assert_eq!(0, de.parse_i64().unwrap());
    assert_eq!(5, de.parse_i64().unwrap());
    let mut de = Deserializer::new("D-1\n".as_bytes().to_vec());
    assert_eq!(Err(DecodeError::ParseIntError), de.parse_u64());
    let mut de = Deserializer::new("D+\n".as_bytes().to_vec());
    assert_eq!(Err(DecodeError::ParseIntError), de.parse_u64());
}

#[test]
fn lengths_and_names() {
    let mut de = Deserializer::new("3\nRecord\nOther\n4294967296\n".as_bytes().to_vec());
    assert_eq!(Ok(()), de.read_and_verify_length(3));
    assert_eq!(Ok(()), de.read_and_verify_name("Record"));
    assert_eq!(Ok(()), de.read_and_verify_name("*"));
    assert_eq!(Err(DecodeError::ParseIntError), de.read_length());
    let de = Deserializer::new(Vec::new());
    assert_eq!(Err(DecodeError::DataError), de.verify_length(2, 3));
    assert_eq!(Ok(()), de.verify_length(3, 3));
    let mut de = Deserializer::new("Name\n".as_bytes().to_vec());
    assert_eq!(Err(DecodeError::DataError), de.read_and_verify_name("Other"));
}

#[test]
fn peeking_and_consuming() {
    let mut de = Deserializer::new("abc\ndef".as_bytes().to_vec());
    assert_eq!(Some(b'a'), de.peek());
    assert_eq!(b"ab".to_vec(), de.peekn(2));
    de.consume(2);
    assert_eq!(2, de.position());
    assert_eq!("c", de.read_line().unwrap());
    assert_eq!(Err(DecodeError::DataError), de.read_line());
    de.consume(200);
    assert_eq!(None, de.peek());
    assert_eq!(Vec::<u8>::new(), de.peekn(3));
}

#[test]
fn mismatched_names_and_lengths_are_read_past() {
    let mut de = Deserializer::new("Name\n7\nnext\n".as_bytes().to_vec());
    assert_eq!(Err(DecodeError::DataError), de.read_and_verify_name("Other"));
    assert_eq!(Err(DecodeError::DataError), de.read_and_verify_length(3));
    assert_eq!("next", de.read_line().unwrap());
}
