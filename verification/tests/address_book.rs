use nakamoto_p2p::address_book::{AddressBook, Malformed, Network, MAINNET_PORT};
use nakamoto_p2p::net::SocketAddr;
use nakamoto_p2p::text::{parse, render};
/// Resolve seeds that are addresses already; a seed that is none fails.
fn from(seeds: &[(&str, u16)]) -> Result<AddressBook, String> {
    let mut resolved = Vec::new();
    for (host, port) in seeds {
        match parse(format!("{}:{}", host, port).as_bytes()) {
            Some(addr) => resolved.push(Ok(vec![addr])),
            None => {
                resolved.push(Err(format!("failed to lookup address information: {}", host)));
                break;
            }
        }
    }
    AddressBook::from(resolved)
}

#[test]
fn test_save_and_load() {
    let book = from(&[
        ("143.25.122.51", 8333),
        ("231.45.72.2", 8334),
        ("113.98.77.4", 8333),
    ])
    .unwrap();

    let saved = book.save();

    assert_eq!(AddressBook::load(&saved).unwrap(), book);
    assert_eq!(
        book.addrs,
        vec![
            SocketAddr::from_octets(143, 25, 122, 51, 8333),
            SocketAddr::from_octets(231, 45, 72, 2, 8334),
            SocketAddr::from_octets(113, 98, 77, 4, 8333),
        ]
    );
    assert_eq!(saved, b"143.25.122.51:8333\n231.45.72.2:8334\n113.98.77.4:8333\n".to_vec());
}

#[test]
fn from_fails_where_a_seed_cannot_be_resolved() {
    let book = from(&[("143.25.122.51", 8333), ("no.such.host", 8333), ("113.98.77.4", 8333)]);
    assert_eq!(book, Err("failed to lookup address information: no.such.host".to_string()));
}

fn text(addr: SocketAddr) -> String {
    let mut out = Vec::new();
    render(&mut out, &addr);
    String::from_utf8(out).unwrap()
}

#[test]
fn render_writes_decimal_without_zeros_in_front() {
    assert_eq!(text(SocketAddr::from_octets(143, 25, 122, 51, 8333)), "143.25.122.51:8333");
    assert_eq!(text(SocketAddr::from_octets(0, 0, 0, 0, 0)), "0.0.0.0:0");
    assert_eq!(text(SocketAddr::from_octets(255, 255, 255, 255, 65535)), "255.255.255.255:65535");
    assert_eq!(text(SocketAddr::from_octets(10, 0, 100, 9, 80)), "10.0.100.9:80");
    assert_eq!(text(SocketAddr::new(0xffff_7f00_0001, 18333)), "127.0.0.1:18333");
}

#[test]
fn render_appends() {
    let mut out = b"x".to_vec();
    render(&mut out, &SocketAddr::from_octets(1, 2, 3, 4, 5));
    assert_eq!(out, b"x1.2.3.4:5".to_vec());
}

#[test]
fn parse_reads_what_render_writes() {
    for addr in [
        SocketAddr::from_octets(143, 25, 122, 51, 8333),
        SocketAddr::from_octets(0, 0, 0, 0, 0),
        SocketAddr::from_octets(255, 255, 255, 255, 65535),
        SocketAddr::from_octets(1, 10, 100, 200, 9),
    ] {
        assert_eq!(parse(text(addr).as_bytes()), Some(addr));
    }
}

#[test]
fn parse_takes_what_spells_an_address_and_nothing_else() {
    let good = [
        ("1.2.3.4:5", SocketAddr::from_octets(1, 2, 3, 4, 5)),
        ("1.2.3.4:05", SocketAddr::from_octets(1, 2, 3, 4, 5)),
        ("1.2.3.4:00000000000000000000000080", SocketAddr::from_octets(1, 2, 3, 4, 80)),
        ("1.2.3.4:65535", SocketAddr::from_octets(1, 2, 3, 4, 65535)),
        ("255.255.255.255:0", SocketAddr::from_octets(255, 255, 255, 255, 0)),
        ("0.0.0.0:0", SocketAddr::from_octets(0, 0, 0, 0, 0)),
        ("10.0.200.99:18333", SocketAddr::from_octets(10, 0, 200, 99, 18333)),
    ];
    for (line, addr) in good {
        assert_eq!(parse(line.as_bytes()), Some(addr), "{:?}", line);
    }
    let bad = [
        "01.2.3.4:5",
        "1.2.3.04:5",
        "1.2.3.4:65536",
        "1.2.3.4:99999999999999999999",
        "256.1.1.1:1",
        "1.2.3.1000:1",
        "00.0.0.0:0",
        "000.0.0.0:0",
        "1.2.3.4",
        "1.2.3.4:",
        "1.2.3:4",
        "1.2.3.4.5:6",
        ".1.2.3:4",
        "1..2.3:4",
        "1.2.3.4:5 ",
        " 1.2.3.4:5",
        "1.2.3.4:5\r",
        "1.2.3.4:+5",
        "1.2.3.4:-5",
        "1.2.3.4:5:6",
        "a.b.c.d:e",
        "1.2.3.4;5",
        "",
        ":",
        "...:",
        "1.2.3.4:5x",
        "1,2.3.4:5",
        "999.2.3.4:5",
        "0x1.2.3.4:5",
        "localhost:8333",
    ];
    for line in bad {
        assert_eq!(parse(line.as_bytes()), None, "{:?}", line);
    }
}

#[test]
fn parse_gives_the_address() {
    assert_eq!(parse(b"1.2.3.4:5"), Some(SocketAddr::new(0xffff_0102_0304, 5)));
    assert_eq!(parse(b"1.2.3.4:0080"), Some(SocketAddr::new(0xffff_0102_0304, 80)));
    assert_eq!(parse(b"1.2.3.4:65536"), None);
    assert_eq!(parse(b"1.2.3.256:1"), None);
    assert_eq!(parse(b"1.2.3.04:1"), None);
    assert_eq!(parse(b""), None);
}

#[test]
fn load_reads_one_address_per_line() {
    let book = AddressBook::load(b"1.2.3.4:5\n6.7.8.9:10\n").unwrap();
    assert_eq!(
        book.addrs,
        vec![SocketAddr::from_octets(1, 2, 3, 4, 5), SocketAddr::from_octets(6, 7, 8, 9, 10)]
    );
}

#[test]
fn load_takes_a_last_line_without_a_newline() {
    let book = AddressBook::load(b"1.2.3.4:5\n6.7.8.9:10").unwrap();
    assert_eq!(book.addrs.len(), 2);
    assert_eq!(book.addrs[1], SocketAddr::from_octets(6, 7, 8, 9, 10));
}

#[test]
fn load_takes_carriage_returns_before_newlines() {
    let book = AddressBook::load(b"1.2.3.4:5\r\n6.7.8.9:10\r\n").unwrap();
    assert_eq!(book.addrs.len(), 2);
    assert_eq!(AddressBook::load(b"1.2.3.4:5\r"), Err(Malformed { line: 0 }));
    assert_eq!(AddressBook::load(b"1.2.3.4:5\r\r\n"), Err(Malformed { line: 0 }));
}

#[test]
fn load_of_an_empty_text_is_an_empty_book() {
    assert_eq!(AddressBook::load(b""), Ok(AddressBook { addrs: vec![] }));
}

#[test]
fn load_names_the_first_malformed_line() {
    assert_eq!(AddressBook::load(b"\n"), Err(Malformed { line: 0 }));
    assert_eq!(AddressBook::load(b"1.2.3.4:5\n\n6.7.8.9:10\n"), Err(Malformed { line: 1 }));
    assert_eq!(AddressBook::load(b"1.2.3.4:5\n6.7.8.9:10\nx\ny\n"), Err(Malformed { line: 2 }));
    assert_eq!(AddressBook::load(b"1.2.3.4:5\n6.7.8.9"), Err(Malformed { line: 1 }));
    assert_eq!(AddressBook::load(b"[::1]:8333\n[::1\n"), Err(Malformed { line: 1 }));
}

#[test]
fn save_then_load_gives_the_book_back() {
    let mut addrs = Vec::new();
    let rng = fastrand::Rng::with_seed(8);
    for _ in 0..500 {
        addrs.push(SocketAddr::new(0xffff_0000_0000 + rng.u32(..) as u128, rng.u16(..)));
        addrs.push(SocketAddr::v6(rng.u128(..), rng.u16(..)));
        addrs.push(SocketAddr::v6(rng.u128(..) >> rng.u32(0..128), rng.u16(..)));
        addrs.push(SocketAddr::v6(rng.u128(..) & rng.u128(..) & rng.u128(..), rng.u16(..)));
    }
    addrs.push(SocketAddr::from_octets(0, 0, 0, 0, 0));
    addrs.push(SocketAddr::from_octets(255, 255, 255, 255, u16::MAX));
    addrs.push(SocketAddr::v6(0, 0));
    addrs.push(SocketAddr::v6(1, 1));
    addrs.push(SocketAddr::v6(u128::MAX, u16::MAX));
    addrs.push(SocketAddr::v6(0xffff_0102_0304, 80));
    let book = AddressBook { addrs };
    let text = book.save();
    assert_eq!(text.iter().filter(|b| **b == b'\n').count(), book.addrs.len());
    assert_eq!(AddressBook::load(&text), Ok(book));
}

#[test]
fn save_of_an_empty_book_is_an_empty_text() {
    assert_eq!(AddressBook { addrs: vec![] }.save(), Vec::<u8>::new());
}

#[test]
fn from_joins_the_addresses_of_the_seeds_in_order() {
    let a = SocketAddr::from_octets(1, 1, 1, 1, 1);
    let b = SocketAddr::from_octets(2, 2, 2, 2, 2);
    let c = SocketAddr::from_octets(3, 3, 3, 3, 3);
    let book = AddressBook::from::<()>(vec![Ok(vec![a, b]), Ok(vec![]), Ok(vec![c, a])]);
    assert_eq!(book, Ok(AddressBook { addrs: vec![a, b, c, a] }));
    assert_eq!(AddressBook::from::<()>(vec![]), Ok(AddressBook { addrs: vec![] }));
}

#[test]
fn from_fails_with_the_first_error() {
    let a = SocketAddr::from_octets(1, 1, 1, 1, 1);
    let book = AddressBook::from(vec![Ok(vec![a]), Err("first"), Ok(vec![a]), Err("second")]);
    assert_eq!(book, Err("first"));
}

#[test]
fn bootstrap_gives_the_seeds_of_the_main_network() {
    let seeds = AddressBook::bootstrap(Network::Mainnet);
    assert_eq!(seeds.len(), 8);
    assert_eq!(seeds[0], ("seed.bitcoin.sipa.be", 8333));
    assert_eq!(seeds[7], ("dnsseed.emzy.de", 8333));
    assert!(seeds.iter().all(|(_, port)| *port == MAINNET_PORT));
}

#[test]
fn octets_and_numbers_agree() {
    let addr = SocketAddr::from_octets(143, 25, 122, 51, 8333);
    assert_eq!(addr.ip(), 0xffff_8f19_7a33);
    assert_eq!(addr.port(), 8333);
    assert!(!addr.is_v6());
    assert_eq!(addr.octets(), [143, 25, 122, 51]);
    assert_eq!(SocketAddr::new(0xffff_8f19_7a33, 8333), addr);
    assert_ne!(SocketAddr::v6(0xffff_8f19_7a33, 8333), addr);
    assert!(SocketAddr::new(0x8f19_7a33, 8333).is_v6());
    assert!(SocketAddr::new(0x1_0000_0000_0000, 1).is_v6());
    assert_eq!(SocketAddr::unspecified(), SocketAddr::from_octets(0, 0, 0, 0, 0));
}

const LONG: u128 = 0x2001_0db8_85a3_08d3_1319_8a2e_0370_7348;

#[test]
fn load_reads_a_line_of_the_ipv6_form() {
    let book = AddressBook::load(b"[2001:db8:85a3:8d3:1319:8a2e:370:7348]:8333\n").unwrap();
    assert_eq!(book.addrs, vec![SocketAddr::v6(LONG, 8333)]);
    assert_eq!(book.save(), b"[2001:db8:85a3:8d3:1319:8a2e:370:7348]:8333\n".to_vec());
}

#[test]
fn load_keeps_the_order_of_lines_of_both_forms() {
    let book = AddressBook::load(b"[::1]:1\n1.2.3.4:2\n[2001:db8::2]:3\n5.6.7.8:4").unwrap();
    assert_eq!(
        book.addrs,
        vec![
            SocketAddr::v6(1, 1),
            SocketAddr::from_octets(1, 2, 3, 4, 2),
            SocketAddr::v6(0x2001_0db8_0000_0000_0000_0000_0000_0002, 3),
            SocketAddr::from_octets(5, 6, 7, 8, 4),
        ]
    );
}

#[test]
fn parse_reads_the_ipv6_form() {
    let good: [(&str, u128, u16); 20] = [
        ("[2001:db8:85a3:8d3:1319:8a2e:370:7348]:8333", LONG, 8333),
        ("[2001:0DB8:85A3:08d3:1319:8A2E:0370:7348]:08333", LONG, 8333),
        ("[::]:0", 0, 0),
        ("[::1]:8333", 1, 8333),
        ("[1::]:1", 1 << 112, 1),
        ("[1::2]:1", (1 << 112) | 2, 1),
        ("[0:0:0:0:0:0:0:0]:9", 0, 9),
        ("[0:0:0:0:0:0:0:1]:9", 1, 9),
        ("[::2:3:4:5:6:7:8]:9", 0x0002_0003_0004_0005_0006_0007_0008, 9),
        ("[1:2:3:4:5:6:7::]:9", 0x0001_0002_0003_0004_0005_0006_0007_0000, 9),
        ("[1:2:3::6:7:8]:9", 0x0001_0002_0003_0000_0000_0006_0007_0008, 9),
        ("[fe80::1]:65535", (0xfe80 << 112) | 1, 65535),
        ("[ffff:ffff:ffff:ffff:ffff:ffff:ffff:ffff]:1", u128::MAX, 1),
        ("[::ffff:102:304]:80", 0xffff_0102_0304, 80),
        ("[a:B:c:D:e:F:0:00]:1", 0x000a_000b_000c_000d_000e_000f_0000_0000, 1),
        ("[1:0:0:2::3]:1", (1 << 112) | (2 << 64) | 3, 1),
        ("[::ffff:1.2.3.4]:80", 0xffff_0102_0304, 80),
        ("[::1.2.3.4]:80", 0x0102_0304, 80),
        ("[1:2:3:4:5:6:1.2.3.4]:9", 0x0001_0002_0003_0004_0005_0006_0102_0304, 9),
        ("[64:ff9b::255.255.255.255]:1", (0x64 << 112) | (0xff9b << 96) | 0xffff_ffff, 1),
    ];
    for (line, ip, port) in good {
        assert_eq!(parse(line.as_bytes()), Some(SocketAddr::v6(ip, port)), "{:?}", line);
    }
    let bad = [
        "[]:1",
        "[:]:1",
        "[:::]:1",
        "[1:]:1",
        "[:1]:1",
        "[1:2:3:4:5:6:7]:1",
        "[1:2:3:4:5:6:7:8:9]:1",
        "[1:2:3:4:5:6:7:8::]:1",
        "[::1:2:3:4:5:6:7:8]:1",
        "[1::2::3]:1",
        "[1:::2]:1",
        "[12345::]:1",
        "[1.2.3.4]:1",
        "[::1.2.3.4:5]:1",
        "[1.2.3.4::]:1",
        "[1:2:3:4:5:6:7:1.2.3.4]:1",
        "[1:2:3:4:5:1.2.3.4]:1",
        "[::1.2.3]:1",
        "[::01.2.3.4]:1",
        "[::1.2.3.256]:1",
        "[::1.2.3.4.]:1",
        "[g::]:1",
        "[::1]",
        "[::1]:",
        "[::1]8333",
        "[::1]:65536",
        "[::1]:1 ",
        "[::1",
        "::1:8333",
        "[[::1]]:1",
        "[::1]]:1",
        "[ ::1]:1",
        "[1:2:3:4:5:6:7:8",
        "[",
    ];
    for line in bad {
        assert_eq!(parse(line.as_bytes()), None, "{:?}", line);
    }
}

#[test]
fn render_writes_the_ipv6_form_in_brackets() {
    let texts: [(u128, &str); 14] = [
        (LONG, "[2001:db8:85a3:8d3:1319:8a2e:370:7348]:8333"),
        (1, "[::1]:8333"),
        (0, "[::]:8333"),
        (u128::MAX, "[ffff:ffff:ffff:ffff:ffff:ffff:ffff:ffff]:8333"),
        (0xffff_0102_0304, "[::ffff:1.2.3.4]:8333"),
        (0xffff_0000_0000, "[::ffff:0.0.0.0]:8333"),
        (0xffff_ffff_ffff, "[::ffff:255.255.255.255]:8333"),
        (0x0102_0304, "[::102:304]:8333"),
        (0x2001_0db8_0000_0000_0001_0000_0000_0001, "[2001:db8::1:0:0:1]:8333"),
        (0x0001_0000_0000_0002_0000_0000_0000_0003, "[1:0:0:2::3]:8333"),
        (0x0001_0000_0002_0003_0004_0005_0006_0007, "[1:0:2:3:4:5:6:7]:8333"),
        (0x0001_0002_0003_0004_0005_0006_0000_0000, "[1:2:3:4:5:6::]:8333"),
        (0x0000_0000_0003_0004_0005_0006_0007_0008, "[::3:4:5:6:7:8]:8333"),
        (0xfe80_0000_0000_0000_0a00_27ff_fe4e_66a1, "[fe80::a00:27ff:fe4e:66a1]:8333"),
    ];
    for (ip, line) in texts {
        assert_eq!(text(SocketAddr::v6(ip, 8333)), line);
        assert_eq!(parse(line.as_bytes()), Some(SocketAddr::v6(ip, 8333)));
    }
}

#[test]
fn the_scope_of_an_address_stands_after_a_percent_sign() {
    assert_eq!(parse(b"[fe80::1%3]:8333"), Some(SocketAddr::scoped((0xfe80 << 112) | 1, 8333, 3)));
    assert_eq!(parse(b"[fe80::1%0]:1"), Some(SocketAddr::v6((0xfe80 << 112) | 1, 1)));
    assert_eq!(parse(b"[::%004294967295]:1"), Some(SocketAddr::scoped(0, 1, u32::MAX)));
    for line in ["[::1%]:1", "[::1%4294967296]:1", "[::1%a]:1", "[::1%1%2]:1", "[%1]:1", "[::1%-1]:1"] {
        assert_eq!(parse(line.as_bytes()), None, "{:?}", line);
    }
    assert_eq!(text(SocketAddr::scoped((0xfe80 << 112) | 1, 8333, 3)), "[fe80::1%3]:8333");
    assert_eq!(text(SocketAddr::scoped(0, 1, u32::MAX)), "[::%4294967295]:1");
    assert_eq!(SocketAddr::scoped(1, 2, 3).scope(), 3);
    let book = AddressBook {
        addrs: vec![SocketAddr::scoped(7, 8, 9), SocketAddr::scoped(u128::MAX, 1, u32::MAX)],
    };
    assert_eq!(AddressBook::load(&book.save()), Ok(book));
}
