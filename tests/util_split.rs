use kvdb::util::strsplit;

// no delim in string
#[test]
fn c0() {
    let r_split = strsplit(String::from("abcd"), ':');
    match r_split {
        Err(_e) => {},
        Ok((_a,_b)) => assert!(false)
    }
}

// only delim in string
#[test]
fn c1() {
    let r_split = strsplit(String::from(":"), ':');
    match r_split {
        Err(_e) => assert!(false),
        Ok((a,b)) => {
            assert_eq!(a, "");
            assert_eq!(b, "");
        }
    }
}

// delim first
#[test]
fn c2() {
    let r_split = strsplit(String::from(":abcd"), ':');
    match r_split {
        Err(_e) => assert!(false),
        Ok((a,b)) => {
            assert_eq!(a, "");
            assert_eq!(b, "abcd");
        }
    }
}

// delim last
#[test]
fn c3() {
    let r_split = strsplit(String::from("abcd:"), ':');
    match r_split {
        Err(_e) => assert!(false),
        Ok((a,b)) => {
            assert_eq!(a, "abcd");
            assert_eq!(b, "");
        }
    }
}

// delim in middle, normal case
#[test]
fn c4() {
    let r_split = strsplit(String::from("ab:cd"), ':');
    match r_split {
        Err(_e) => assert!(false),
        Ok((a,b)) => {
            assert_eq!(a, "ab");
            assert_eq!(b, "cd");
        }
    }
}
