use keylayout::letter::Letter;

#[test]
fn display_is_the_character_from_alphabet_indexed() {
    for c in Letter::ALPHABET {
        let actual = Letter::try_from(c).unwrap().to_string();
        let expected = c.to_string();
        assert_eq!(actual, expected);
    }
}

#[test]
fn try_from_char_when_in_alphabet() {
    for c in Letter::ALPHABET {
        let letter = Letter::try_from(c);
        match letter {
            Err(_) => panic!("Could not convert the character '{}' to a Letter.", c),
            Ok(letter) => assert_eq!(letter.to_string(), c.to_string()),
        }
    }
}

#[test]
fn try_from_char_when_not_in_alphabet() {
    let before_a = char::from_u32(('a' as u32) - 1).unwrap();
    let after_z = char::from_u32(('z' as u32) + 1).unwrap();
    let invalid_character = ['4', '$', 'A', 'B', 'Z', before_a, after_z];
    for c in invalid_character {
        let letter = Letter::try_from(c);
        match letter {
            Err(_) => (),
            Ok(_) => panic!("Converted the invalid character '{}' into a Letter.", c),
        }
    }
}

#[test]
fn try_from_u32_when_not_in_alphabet() {
    assert!(Letter::try_from(Letter::ALPHABET.len() as u32).is_err());
    assert!(Letter::try_from((Letter::ALPHABET.len() + 1) as u32).is_err());
}

#[test]
fn try_from_u32_when_in_alphabet() {
    for i in 0..Letter::ALPHABET.len() - 1 {
        assert!(Letter::try_from(i as u32).is_ok());
    }
}

#[test]
fn to_char() {
    for expected in Letter::ALPHABET {
        let actual: char = Letter::try_from(expected).unwrap().to_char();
        assert_eq!(expected, actual);
    }
}

#[test]
fn to_u8() {
    for (index, c) in Letter::ALPHABET.iter().enumerate() {
        let letter = Letter::try_from(*c).unwrap();
        let actual = letter.to_u8();
        assert_eq!(index as u8, actual);
    }
}

#[test]
fn to_u32_returns_index_into_alphabet() {
    for c in Letter::ALPHABET {
        let actual = Letter::try_from(c).unwrap().to_u32();
        let expected = Letter::ALPHABET
            .iter()
            .enumerate()
            .find_map(|(inx, ch)| match *ch == c {
                true => Some(inx),
                false => None,
            })
            .map(|inx| inx as u32)
            .unwrap();
        assert_eq!(expected, actual);
    }
}

#[test]
fn to_usize_returns_index_into_alphabet() {
    for c in Letter::ALPHABET {
        let actual = Letter::try_from(c).unwrap().to_usize();
        let expected = Letter::ALPHABET
            .iter()
            .enumerate()
            .find_map(|(inx, ch)| match *ch == c {
                true => Some(inx),
                false => None,
            })
            .unwrap();
        assert_eq!(expected, actual);
    }
}

#[test]
fn alphabet_size_constant() {
    assert_eq!(Letter::ALPHABET_SIZE, Letter::ALPHABET.len());
}

#[test]
fn letter_new_and_from_u32_agree() {
    assert_eq!(Letter::new('c'), Letter::from_u32(2).unwrap());
    assert_eq!(Letter::new('\'').to_u32(), 26);
    assert!(Letter::from_char('!').is_err());
}
