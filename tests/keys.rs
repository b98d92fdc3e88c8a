use sledis::keys::{bare, blob, decode_list_index, encode_list_index, list, list_meta, table, table_meta};

#[test]
fn bare_key_layout() {
    assert_eq!(bare(b"ab"), vec![b'a', b'b', 0, 255]);
    assert_eq!(bare(&[0, 7]), vec![0, 1, 7, 0, 255]);
    assert_eq!(blob(b"ab"), bare(b"ab"));
}

#[test]
fn meta_and_item_keys() {
    assert_eq!(list_meta(b"L"), vec![b'L', 0, 255, 0]);
    assert_eq!(table_meta(b"L"), vec![b'L', 0, 255, 0]);
    let k = list(b"L", 0);
    let mut expected = vec![b'L', 0, 255, 1, 0x80];
    expected.extend_from_slice(&[0; 15]);
    assert_eq!(k, expected);
    assert_eq!(table(b"T", &[0, 3]), vec![b'T', 0, 255, 1, 0, 1, 3, 0, 255]);
}

#[test]
fn list_index_bytes() {
    assert_eq!(encode_list_index(0), (0i128 ^ i128::MIN).to_be_bytes());
    assert_eq!(encode_list_index(-1), (-1i128 ^ i128::MIN).to_be_bytes());
    assert_eq!(encode_list_index(i128::MIN), [0u8; 16]);
    assert_eq!(encode_list_index(i128::MAX), [255u8; 16]);
    assert_eq!(encode_list_index(5)[15], 5);
    for ix in [i128::MIN, -300, -1, 0, 1, 77, i128::MAX] {
        assert_eq!(decode_list_index(&encode_list_index(ix)), Some(ix));
    }
    assert_eq!(decode_list_index(&[0; 15]), None);
}

#[test]
fn list_index_order() {
    let ixs = [i128::MIN, -1000, -1, 0, 1, 256, i128::MAX];
    for w in ixs.windows(2) {
        assert!(list(b"n", w[0]) < list(b"n", w[1]));
    }
}

#[test]
fn encode_inj() {
    let names: Vec<Vec<u8>> = vec![vec![], vec![0], vec![0, 0x61], vec![0x61], vec![0, 1]];
    let mut all: Vec<Vec<u8>> = Vec::new();
    for n in &names {
        all.push(blob(n));
        all.push(list_meta(n));
        all.push(list(n, 0));
        all.push(list(n, -1));
        for k in &names {
            all.push(table(n, k));
        }
    }
    for i in 0..all.len() {
        for j in 0..all.len() {
            if i != j {
                assert_ne!(all[i], all[j], "{} {}", i, j);
            }
        }
    }
}
