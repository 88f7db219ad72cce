use fcidr::{Cidr, Error};

fn ip(a: u8, b: u8, c: u8, d: u8) -> u32 {
    u32::from_be_bytes([a, b, c, d])
}

fn block(a: u8, b: u8, c: u8, d: u8, prefix: u8) -> Cidr {
    Cidr::new(ip(a, b, c, d), prefix).unwrap()
}

#[test]
fn new_keeps_address_and_prefix() {
    let cidr = block(10, 0, 128, 0, 25);
    assert_eq!(cidr.network(), ip(10, 0, 128, 0));
    assert_eq!(cidr.prefix(), 25);
    assert_eq!(cidr.first(), ip(10, 0, 128, 0));
}

#[test]
fn new_accepts_every_prefix_of_an_aligned_address() {
    for prefix in 0..=32u8 {
        assert!(Cidr::new(0, prefix).is_ok());
    }
    for prefix in 1..=32u8 {
        assert!(Cidr::new(ip(128, 0, 0, 0), prefix).is_ok());
    }
    assert!(Cidr::new(ip(255, 255, 255, 255), 32).is_ok());
    for prefix in 0..32u8 {
        assert!(matches!(
            Cidr::new(ip(255, 255, 255, 255), prefix),
            Err(Error::InvalidNetwork(_))
        ));
    }
}

#[test]
fn new_refuses_host_bits() {
    assert_eq!(
        Cidr::new(ip(10, 0, 0, 1), 8),
        Err(Error::InvalidNetwork(
            "network address '10.0.0.1' must be clear after the first 8 bits".to_string()
        ))
    );
}

#[test]
fn new_refuses_long_prefix() {
    assert_eq!(
        Cidr::new(0, 33),
        Err(Error::InvalidPrefix(
            "network prefix '33' must be 32 or less".to_string()
        ))
    );
    assert!(matches!(Cidr::new(0, 255), Err(Error::InvalidPrefix(_))));
}

#[test]
fn long_prefix_is_reported_before_host_bits() {
    assert!(matches!(
        Cidr::new(ip(10, 0, 0, 1), 40),
        Err(Error::InvalidPrefix(_))
    ));
}

#[test]
fn default_is_the_whole_space() {
    let cidr = Cidr::default();
    assert_eq!(cidr.network(), 0);
    assert_eq!(cidr.prefix(), 0);
    assert_eq!(cidr.first(), 0);
    assert_eq!(cidr.last(), u32::MAX);
    assert_eq!(cidr.mid(), ip(128, 0, 0, 0));
    assert_eq!(cidr.parent(), None);
}

#[test]
fn bounds_of_a_block() {
    let cidr = block(10, 0, 0, 0, 8);
    assert_eq!(cidr.first(), ip(10, 0, 0, 0));
    assert_eq!(cidr.last(), ip(10, 255, 255, 255));
    assert_eq!(cidr.mid(), ip(10, 128, 0, 0));
    let cidr = block(10, 128, 0, 0, 9);
    assert_eq!(cidr.last(), ip(10, 255, 255, 255));
    assert_eq!(cidr.mid(), ip(10, 192, 0, 0));
    let cidr = block(10, 0, 128, 0, 25);
    assert_eq!(cidr.last(), ip(10, 0, 128, 127));
    assert_eq!(cidr.mid(), ip(10, 0, 128, 64));
}

#[test]
fn bounds_of_a_single_address() {
    let cidr = block(255, 255, 255, 255, 32);
    assert_eq!(cidr.first(), u32::MAX);
    assert_eq!(cidr.last(), u32::MAX);
    assert_eq!(cidr.mid(), u32::MAX);
    assert_eq!(cidr.left_subnet(), None);
    assert_eq!(cidr.right_subnet(), None);
    assert_eq!(cidr.split(), None);
}

#[test]
fn halves_of_a_block() {
    let cidr = block(48, 0, 0, 0, 4);
    assert_eq!(cidr.left_subnet(), Some(block(48, 0, 0, 0, 5)));
    assert_eq!(cidr.right_subnet(), Some(block(56, 0, 0, 0, 5)));
    assert_eq!(
        cidr.split(),
        Some([block(48, 0, 0, 0, 5), block(56, 0, 0, 0, 5)])
    );
    let cidr = block(10, 0, 128, 0, 31);
    assert_eq!(
        cidr.split(),
        Some([block(10, 0, 128, 0, 32), block(10, 0, 128, 1, 32)])
    );
    assert_eq!(
        Cidr::default().split(),
        Some([block(0, 0, 0, 0, 1), block(128, 0, 0, 0, 1)])
    );
}

#[test]
fn parent_of_a_block() {
    assert_eq!(block(48, 0, 0, 0, 4).parent(), Some(block(32, 0, 0, 0, 3)));
    assert_eq!(block(56, 0, 0, 0, 5).parent(), Some(block(48, 0, 0, 0, 4)));
    assert_eq!(block(128, 0, 0, 0, 1).parent(), Some(Cidr::default()));
    assert_eq!(block(0, 0, 0, 0, 1).parent(), Some(Cidr::default()));
    assert_eq!(
        block(255, 255, 255, 255, 32).parent(),
        Some(block(255, 255, 255, 254, 31))
    );
    assert_eq!(
        block(10, 0, 128, 0, 25).parent(),
        Some(block(10, 0, 128, 0, 24))
    );
}

#[test]
fn halves_have_the_block_as_parent() {
    let mut cidr = Cidr::default();
    while let Some([left, right]) = cidr.split() {
        assert_eq!(left.parent(), Some(cidr));
        assert_eq!(right.parent(), Some(cidr));
        assert_eq!(left.first(), cidr.first());
        assert_eq!(left.last() + 1, right.first());
        assert_eq!(right.first(), cidr.mid());
        assert_eq!(right.last(), cidr.last());
        cidr = if cidr.prefix() % 3 == 0 { right } else { left };
    }
    assert_eq!(cidr.prefix(), 32);
}

#[test]
fn contains_blocks() {
    let outer = block(10, 0, 0, 0, 8);
    assert!(outer.contains(outer));
    assert!(outer.contains(block(10, 0, 128, 0, 24)));
    assert!(outer.contains(block(10, 255, 255, 255, 32)));
    assert!(!outer.contains(block(11, 0, 0, 0, 8)));
    assert!(!outer.contains(block(10, 0, 0, 0, 7)));
    assert!(!outer.contains(Cidr::default()));
    assert!(Cidr::default().contains(outer));
}

#[test]
fn contains_addresses() {
    let outer = block(10, 0, 0, 0, 8);
    assert!(outer.contains(Cidr::from(ip(10, 1, 2, 3))));
    assert!(!outer.contains(Cidr::from(ip(9, 255, 255, 255))));
    assert!(!outer.contains(Cidr::from(ip(11, 0, 0, 0))));
    let single = Cidr::from(ip(1, 2, 3, 4));
    assert_eq!(single.network(), ip(1, 2, 3, 4));
    assert_eq!(single.prefix(), 32);
}

#[test]
fn writes_dotted_quad_and_prefix() {
    assert_eq!(Cidr::default().to_string(), "0.0.0.0/0");
    assert_eq!(block(10, 0, 128, 0, 25).to_string(), "10.0.128.0/25");
    assert_eq!(block(255, 255, 255, 255, 32).to_string(), "255.255.255.255/32");
    assert_eq!(block(192, 168, 100, 9, 32).to_string(), "192.168.100.9/32");
    assert_eq!(block(128, 0, 0, 0, 1).to_string(), "128.0.0.0/1");
}

#[test]
fn reads_what_it_writes() {
    for text in [
        "0.0.0.0/0",
        "48.0.0.0/4",
        "10.0.128.0/25",
        "127.0.1.2/31",
        "128.0.0.0/30",
        "255.255.255.255/32",
    ] {
        let cidr = Cidr::parse(text).unwrap();
        assert_eq!(cidr.to_string(), text);
        assert_eq!(text.parse::<Cidr>(), Ok(cidr));
    }
}

#[test]
fn parse_gives_the_block() {
    assert_eq!(Cidr::parse("0.0.0.0/0"), Ok(Cidr::default()));
    assert_eq!(Cidr::parse("10.0.0.0/8"), Ok(block(10, 0, 0, 0, 8)));
    assert_eq!(Cidr::parse("1.2.3.4/32"), Ok(block(1, 2, 3, 4, 32)));
    assert_eq!(Cidr::parse("010.000.0.00/08"), Ok(block(10, 0, 0, 0, 8)));
}

#[test]
fn parse_without_slash() {
    assert_eq!(
        Cidr::parse("10.0.0.0"),
        Err(Error::Parse("missing network prefix delimiter".to_string()))
    );
    assert_eq!(
        Cidr::parse(""),
        Err(Error::Parse("missing network prefix delimiter".to_string()))
    );
}

#[test]
fn parse_refuses_malformed_addresses() {
    for text in [
        "/8",
        "10/8",
        "10.0.0/8",
        "10.0.0.0.0/8",
        "10..0.0/8",
        "10.0.0./8",
        ".10.0.0/8",
        "256.0.0.0/8",
        "127.0.343.0/8",
        "a.b.c.d/8",
        "10.0.0.-1/8",
        " 10.0.0.0/8",
        "10.0.0.0 /8",
        "１０.0.0.0/8",
    ] {
        assert!(
            matches!(Cidr::parse(text), Err(Error::Parse(_))),
            "{text}"
        );
    }
}

#[test]
fn parse_refuses_malformed_prefixes() {
    for text in [
        "10.0.0.0/",
        "10.0.0.0/x",
        "10.0.0.0/8 ",
        "10.0.0.0/-8",
        "10.0.0.0/256",
        "10.0.0.0/1000",
        "10.0.0.0/8/8",
        "10.0.0.0//8",
    ] {
        assert!(
            matches!(Cidr::parse(text), Err(Error::Parse(_))),
            "{text}"
        );
    }
}

#[test]
fn parse_reports_what_new_reports() {
    assert_eq!(Cidr::parse("10.0.0.1/8"), Cidr::new(ip(10, 0, 0, 1), 8));
    assert!(matches!(
        Cidr::parse("10.0.0.1/8"),
        Err(Error::InvalidNetwork(_))
    ));
    assert_eq!(Cidr::parse("0.0.0.0/33"), Cidr::new(0, 33));
    assert!(matches!(
        Cidr::parse("0.0.0.0/33"),
        Err(Error::InvalidPrefix(_))
    ));
    assert!(matches!(
        Cidr::parse("0.0.0.0/255"),
        Err(Error::InvalidPrefix(_))
    ));
}

fn parse_message(text: &str) -> String {
    match Cidr::parse(text) {
        Err(Error::Parse(message)) => message,
        other => panic!("{text}: {other:?}"),
    }
}

#[test]
fn parse_says_what_is_wrong() {
    assert_eq!(parse_message("10.0.0.0"), "missing network prefix delimiter");
    assert_eq!(parse_message("é"), "missing network prefix delimiter");
    assert_eq!(parse_message("a.b.c.d/8"), "invalid IPv4 address syntax");
    assert_eq!(parse_message("10.0.0/8"), "invalid IPv4 address syntax");
    assert_eq!(parse_message("10.0.0.256/8"), "invalid IPv4 address syntax");
    assert_eq!(parse_message("10.0.0.é/8"), "invalid IPv4 address syntax");
    assert_eq!(parse_message("/"), "invalid IPv4 address syntax");
    assert_eq!(parse_message("10.0.0.0/"), "cannot parse integer from empty string");
    assert_eq!(parse_message("10.0.0.0/x"), "invalid digit found in string");
    assert_eq!(parse_message("10.0.0.0/é"), "invalid digit found in string");
    assert_eq!(parse_message("10.0.0.0/25x"), "invalid digit found in string");
    assert_eq!(parse_message("10.0.0.0/8/8"), "invalid digit found in string");
    assert_eq!(
        parse_message("10.0.0.0/256"),
        "number too large to fit in target type"
    );
    assert_eq!(
        parse_message("10.0.0.0/2560x"),
        "number too large to fit in target type"
    );
    assert_eq!(parse_message("x/"), "invalid IPv4 address syntax");
}

#[test]
fn parse_takes_leading_zeros() {
    assert_eq!(Cidr::parse("0010.0.0.000/0008"), Ok(block(10, 0, 0, 0, 8)));
    assert_eq!(Cidr::parse("255.255.255.255/032"), Ok(block(255, 255, 255, 255, 32)));
}
