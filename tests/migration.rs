use rusqlite::Connection;
use wallet_core::migration::{get_pre_1_wallet_keychains, Pre1WalletKeychain};

fn read_keychains(conn: &mut Connection) -> Result<Vec<Pre1WalletKeychain>, rusqlite::Error> {
    let db_tx = conn.transaction()?;
    let mut statement = db_tx.prepare(
        "SELECT idx.keychain AS keychain, value, checksum FROM last_derivation_indices AS idx \
         JOIN checksums AS chk ON idx.keychain = chk.keychain",
    )?;
    let row_iter = statement.query_map([], |row| {
        Ok((
            row.get::<_, String>("keychain")?,
            row.get::<_, u32>("value")?,
            row.get::<_, Vec<u8>>("checksum")?,
        ))
    })?;
    let mut rows = Vec::new();
    for row in row_iter {
        rows.push(row?);
    }
    Ok(get_pre_1_wallet_keychains(&rows))
}

#[test]
fn test_get_pre_1_wallet_keychains() {
    let mut conn = Connection::open_in_memory().unwrap();
    let external_checksum = vec![0x01u8, 0x02u8, 0x03u8, 0x04u8];
    let internal_checksum = vec![0x05u8, 0x06u8, 0x07u8, 0x08u8];
    conn.execute_batch(
        "CREATE TABLE last_derivation_indices (keychain TEXT, value INTEGER);
         CREATE UNIQUE INDEX idx_indices_keychain ON last_derivation_indices(keychain);
         CREATE TABLE checksums (keychain TEXT, checksum BLOB);
         CREATE INDEX idx_checksums_keychain ON checksums(keychain);",
    )
    .unwrap();
    conn.execute(
        "INSERT INTO last_derivation_indices (keychain, value) VALUES (?, ?)",
        ("\"External\"", 42),
    )
    .unwrap();
    conn.execute(
        "INSERT INTO checksums (keychain, checksum) VALUES (?, ?)",
        ("\"External\"", external_checksum.clone()),
    )
    .unwrap();
    conn.execute(
        "INSERT INTO last_derivation_indices (keychain, value) VALUES (?, ?)",
        ("\"Internal\"", 21),
    )
    .unwrap();
    conn.execute(
        "INSERT INTO checksums (keychain, checksum) VALUES (?, ?)",
        ("\"Internal\"", internal_checksum.clone()),
    )
    .unwrap();

    // a wallet with two keychains
    let result = read_keychains(&mut conn).unwrap();
    assert_eq!(result.len(), 2);
    assert_eq!(result[0].keychain, "External");
    assert_eq!(result[0].last_derivation_index, 42);
    assert_eq!(result[0].checksum, external_checksum);
    assert_eq!(result[1].keychain, "Internal");
    assert_eq!(result[1].last_derivation_index, 21);
    assert_eq!(result[1].checksum, internal_checksum);

    conn.execute(
        "DELETE FROM last_derivation_indices WHERE keychain = ?",
        ("\"Internal\"",),
    )
    .unwrap();
    conn.execute("DELETE FROM checksums WHERE keychain = ?", ("\"Internal\"",))
        .unwrap();

    // a wallet with one keychain
    let result = read_keychains(&mut conn).unwrap();
    assert_eq!(result.len(), 1);
    assert_eq!(result[0].keychain, "External");
    assert_eq!(result[0].last_derivation_index, 42);
    assert_eq!(result[0].checksum, external_checksum);
}

#[test]
fn keychain_rows_strip_quotes_only_at_the_ends() {
    let rows = vec![
        ("\"\"ext\"ernal\"".to_string(), 7u32, vec![9u8]),
        ("\"\"\"".to_string(), 0u32, vec![]),
        ("plain".to_string(), u32::MAX, vec![1u8, 2]),
    ];
    let r = get_pre_1_wallet_keychains(&rows);
    assert_eq!(r.len(), 3);
    assert_eq!(r[0].keychain, "ext\"ernal");
    assert_eq!(r[0].last_derivation_index, 7);
    assert_eq!(r[0].checksum, vec![9u8]);
    assert_eq!(r[1].keychain, "");
    assert_eq!(r[2].keychain, "plain");
    assert_eq!(r[2].last_derivation_index, u32::MAX);
}

#[test]
fn keychain_rows_empty() {
    assert!(get_pre_1_wallet_keychains(&Vec::new()).is_empty());
}
