use ennead_protocol::serial::{aegean_u16, aegean_u32, read_serial};

fn numerals(n: u16) -> String {
    let mut s: heapless::String<64> = heapless::String::new();
    aegean_u16(n, &mut s);
    s.as_str().to_string()
}

#[test]
fn serial_number_value() {
    assert_eq!(read_serial(), 0xeeee_eeee);
    assert_eq!(aegean_u32(read_serial()).as_str(), "𐄰𐄢𐄙𐄕𐄌 𐄰𐄢𐄙𐄕𐄌");
}

#[test]
fn aegean_digits() {
    assert_eq!(numerals(0), "");
    assert_eq!(numerals(1), "𐄇");
    assert_eq!(numerals(8), "𐄎");
    assert_eq!(numerals(9), "𐄎𐄇");
    assert_eq!(numerals(10), "𐄐");
    assert_eq!(numerals(12345), "𐄫𐄣𐄛𐄓𐄋");
    assert_eq!(numerals(65535), "𐄰𐄦𐄝𐄒𐄋");
    assert_eq!(aegean_u32(0).as_str(), " ");
    assert_eq!(aegean_u32(0x0001_0002).as_str(), "𐄇 𐄈");
}

#[test]
fn aegean_appends() {
    let mut s: heapless::String<64> = heapless::String::new();
    s.push_str("n=").unwrap();
    aegean_u16(70, &mut s);
    assert_eq!(s.as_str(), "n=𐄖");
}

#[test]
fn aegean_truncates_at_capacity() {
    let hi = "𐄯𐄩𐄢𐄠𐄙𐄗𐄐𐄎𐄇";
    assert_eq!(numerals(59999), hi);
    let s = aegean_u32(0xEA5F_EA5F);
    assert_eq!(s.as_str(), format!("{} {}", hi, "𐄯𐄩𐄢𐄠𐄙𐄗"));
    assert_eq!(s.len(), 61);
}
