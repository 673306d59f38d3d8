use macaddress::macaddress::MediaAccessControlAddress;

#[test]
#[should_panic]
fn test_invalid_addresses() {
    let addresses = [
        "0a",                 // Too few digits
        "0a1b2c3d4e5f6",      // Too many digits
        "0a1b2c3d4e5g",       // Invalid digit
        "-0a-1b-2c-3d-4e-5f", // Leading hyphen
        "0a-1b-2c-3d-4e-5f-", // Trailing hyphen
        "0a-1b-2c-3d-4e5f",   // Missing hyphen
        ":0a:1b:2c:3d:4e:5f", // Leading colon
        "0a:1b:2c:3d:4e:5f:", // Trailing colon
        "0a:1b:2c:3d:4e5f",   // Missing colon
        ".0a1b.2c3d.4e5f",    // Leading dot
        "0a1b.2c3d.4e5f.",    // Trailing dot
        "0a1b.2c3d4e5f",      // Missing dot
    ];

    for element in addresses.into_iter() {
        let digits = element.to_string();
        MediaAccessControlAddress::new(&digits).unwrap();
    }
}

// An EUI is a unicast address.
#[test]
fn test_unicast_eui_addresses() {
    let addresses = [
        (
            "a0b1c2d3e4f5", // Plain notation (lowercase)
            "101000001011000111000010110100111110010011110101",
            176685338322165,
            "a0b1c2d3e4f5",
            "a0-b1-c2-d3-e4-f5",
            "a0:b1:c2:d3:e4:f5",
            "a0b1.c2d3.e4f5",
            ("a0b1c2", "d3e4f5"),
            "unique",
            true,
            false,
            false,
            false,
            true,
            true,
            false,
        ),
        (
            "A0B1C2D3E4F5", // Plain notation (uppercase)
            "101000001011000111000010110100111110010011110101",
            176685338322165,
            "a0b1c2d3e4f5",
            "a0-b1-c2-d3-e4-f5",
            "a0:b1:c2:d3:e4:f5",
            "a0b1.c2d3.e4f5",
            ("a0b1c2", "d3e4f5"),
            "unique",
            true,
            false,
            false,
            false,
            true,
            true,
            false,
        ),
        (
            "a0-b1-c2-d3-e4-f5", // Hyphen notation (lowercase)
            "101000001011000111000010110100111110010011110101",
            176685338322165,
            "a0b1c2d3e4f5",
            "a0-b1-c2-d3-e4-f5",
            "a0:b1:c2:d3:e4:f5",
            "a0b1.c2d3.e4f5",
            ("a0b1c2", "d3e4f5"),
            "unique",
            true,
            false,
            false,
            false,
            true,
            true,
            false,
        ),
        (
            "A0-B1-C2-D3-E4-F5", // Hyphen notation (uppercase)
            "101000001011000111000010110100111110010011110101",
            176685338322165,
            "a0b1c2d3e4f5",
            "a0-b1-c2-d3-e4-f5",
            "a0:b1:c2:d3:e4:f5",
            "a0b1.c2d3.e4f5",
            ("a0b1c2", "d3e4f5"),
            "unique",
            true,
            false,
            false,
            false,
            true,
            true,
            false,
        ),
        (
            "a0:b1:c2:d3:e4:f5", // Colon notation (lowercase)
            "101000001011000111000010110100111110010011110101",
            176685338322165,
            "a0b1c2d3e4f5",
            "a0-b1-c2-d3-e4-f5",
            "a0:b1:c2:d3:e4:f5",
            "a0b1.c2d3.e4f5",
            ("a0b1c2", "d3e4f5"),
            "unique",
            true,
            false,
            false,
            false,
            true,
            true,
            false,
        ),
        (
            "A0:B1:C2:D3:E4:F5", // Colon notation (uppercase)
            "101000001011000111000010110100111110010011110101",
            176685338322165,
            "a0b1c2d3e4f5",
            "a0-b1-c2-d3-e4-f5",
            "a0:b1:c2:d3:e4:f5",
            "a0b1.c2d3.e4f5",
            ("a0b1c2", "d3e4f5"),
            "unique",
            true,
            false,
            false,
            false,
            true,
            true,
            false,
        ),
        (
            "a0b1.c2d3.e4f5", // Dot notation (lowercase)
            "101000001011000111000010110100111110010011110101",
            176685338322165,
            "a0b1c2d3e4f5",
            "a0-b1-c2-d3-e4-f5",
            "a0:b1:c2:d3:e4:f5",
            "a0b1.c2d3.e4f5",
            ("a0b1c2", "d3e4f5"),
            "unique",
            true,
            false,
            false,
            false,
            true,
            true,
            false,
        ),
        (
            "A0B1.C2D3.E4F5", // Dot notation (uppercase)
            "101000001011000111000010110100111110010011110101",
            176685338322165,
            "a0b1c2d3e4f5",
            "a0-b1-c2-d3-e4-f5",
            "a0:b1:c2:d3:e4:f5",
            "a0b1.c2d3.e4f5",
            ("a0b1c2", "d3e4f5"),
            "unique",
            true,
            false,
            false,
            false,
            true,
            true,
            false,
        ),
    ];

    for element in addresses.into_iter() {
        let digits = element.0.to_string();
        let mac = MediaAccessControlAddress::new(&digits).unwrap();

        assert_eq!(mac.to_binary_representation(), element.1);
        assert_eq!(mac.to_decimal_representation(), element.2);
        assert_eq!(mac.to_plain_notation(), element.3);
        assert_eq!(mac.to_hyphen_notation(), element.4);
        assert_eq!(mac.to_colon_notation(), element.5);
        assert_eq!(mac.to_dot_notation(), element.6);

        assert_eq!(mac.to_fragments(), element.7);
        assert_eq!(mac.kind(), element.8);
        assert_eq!(mac.has_oui(), element.9);
        assert_eq!(mac.has_cid(), element.10);

        assert_eq!(mac.is_broadcast(), element.11);
        assert_eq!(mac.is_multicast(), element.12);
        assert_eq!(mac.is_unicast(), element.13);
        assert_eq!(mac.is_uaa(), element.14);
        assert_eq!(mac.is_laa(), element.15);
    }
}

// An ELI is a unicast address.
#[test]
fn test_unicast_eli_address() {
    let address = (
        "0a1b2c3d4e5f",
        "000010100001101100101100001111010100111001011111",
        11111822610015,
        "0a1b2c3d4e5f",
        "0a-1b-2c-3d-4e-5f",
        "0a:1b:2c:3d:4e:5f",
        "0a1b.2c3d.4e5f",
        ("0a1b2c", "3d4e5f"),
        "local",
        false,
        true,
        false,
        false,
        true,
        false,
        true,
    );

    let digits = address.0.to_string();
    let mac = MediaAccessControlAddress::new(&digits).unwrap();

    assert_eq!(mac.to_binary_representation(), address.1);
    assert_eq!(mac.to_decimal_representation(), address.2);
    assert_eq!(mac.to_plain_notation(), address.3);
    assert_eq!(mac.to_hyphen_notation(), address.4);
    assert_eq!(mac.to_colon_notation(), address.5);
    assert_eq!(mac.to_dot_notation(), address.6);

    assert_eq!(mac.to_fragments(), address.7);
    assert_eq!(mac.kind(), address.8);
    assert_eq!(mac.has_oui(), address.9);
    assert_eq!(mac.has_cid(), address.10);

    assert_eq!(mac.is_broadcast(), address.11);
    assert_eq!(mac.is_multicast(), address.12);
    assert_eq!(mac.is_unicast(), address.13);
    assert_eq!(mac.is_uaa(), address.14);
    assert_eq!(mac.is_laa(), address.15);
}

#[test]
fn test_broadcast_address() {
    let address = (
        "ffffffffffff",
        "111111111111111111111111111111111111111111111111",
        281474976710655,
        "ffffffffffff",
        "ff-ff-ff-ff-ff-ff",
        "ff:ff:ff:ff:ff:ff",
        "ffff.ffff.ffff",
        ("ffffff", "ffffff"),
        "unknown",
        false,
        false,
        true,
        true,
        false,
        false,
        false,
    );

    let digits = address.0.to_string();
    let mac = MediaAccessControlAddress::new(&digits).unwrap();

    assert_eq!(mac.to_binary_representation(), address.1);
    assert_eq!(mac.to_decimal_representation(), address.2);
    assert_eq!(mac.to_plain_notation(), address.3);
    assert_eq!(mac.to_hyphen_notation(), address.4);
    assert_eq!(mac.to_colon_notation(), address.5);
    assert_eq!(mac.to_dot_notation(), address.6);

    // These tests make little sense in the context
    // of a broadcast address, but we run them for the
    // sake of completeness.
    assert_eq!(mac.to_fragments(), address.7);
    assert_eq!(mac.kind(), address.8);
    assert_eq!(mac.has_oui(), address.9);
    assert_eq!(mac.has_cid(), address.10);

    assert_eq!(mac.is_broadcast(), address.11);
    assert_eq!(mac.is_multicast(), address.12);
    assert_eq!(mac.is_unicast(), address.13);
    assert_eq!(mac.is_uaa(), address.14);
    assert_eq!(mac.is_laa(), address.15);
}

#[test]
fn test_multicast_address() {
    let address = (
        "0180c2000000", // Link-Layer Discovery Protocol
        "000000011000000011000010000000000000000000000000",
        1652522221568,
        "0180c2000000",
        "01-80-c2-00-00-00",
        "01:80:c2:00:00:00",
        "0180.c200.0000",
        ("0180c2", "000000"),
        "unknown",
        false,
        false,
        false,
        true,
        false,
        false,
        false,
    );

    let digits = address.0.to_string();
    let mac = MediaAccessControlAddress::new(&digits).unwrap();

    assert_eq!(mac.to_binary_representation(), address.1);
    assert_eq!(mac.to_decimal_representation(), address.2);
    assert_eq!(mac.to_plain_notation(), address.3);
    assert_eq!(mac.to_hyphen_notation(), address.4);
    assert_eq!(mac.to_colon_notation(), address.5);
    assert_eq!(mac.to_dot_notation(), address.6);

    // These tests make little sense in the context
    // of a multicast address, but we run them for the
    // sake of completeness.
    assert_eq!(mac.to_fragments(), address.7);
    assert_eq!(mac.kind(), address.8);
    assert_eq!(mac.has_oui(), address.9);
    assert_eq!(mac.has_cid(), address.10);

    assert_eq!(mac.is_broadcast(), address.11);
    assert_eq!(mac.is_multicast(), address.12);
    assert_eq!(mac.is_unicast(), address.13);
    assert_eq!(mac.is_uaa(), address.14);
    assert_eq!(mac.is_laa(), address.15);
}
