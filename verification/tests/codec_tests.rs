use zkevm::artifacts::Fr;
use zkevm::codec::{deserialize_tensor, serialize_tensor};

fn fr(l0: u64, l1: u64, l2: u64, l3: u64) -> Fr {
    Fr { l0, l1, l2, l3 }
}

#[test]
fn serialize_exact_bytes() {
    let t = vec![vec![vec![fr(0, 1, 10, 18446744073709551615)]]];
    let bytes = serialize_tensor(&t);
    assert_eq!(
        String::from_utf8(bytes).unwrap(),
        "[[[[0,1,10,18446744073709551615]]]]"
    );
}

#[test]
fn serialize_empty_tensor() {
    let t: Vec<Vec<Vec<Fr>>> = vec![];
    assert_eq!(String::from_utf8(serialize_tensor(&t)).unwrap(), "[]");
    let t2: Vec<Vec<Vec<Fr>>> = vec![vec![]];
    assert_eq!(String::from_utf8(serialize_tensor(&t2)).unwrap(), "[[]]");
    let t3: Vec<Vec<Vec<Fr>>> = vec![vec![vec![]]];
    assert_eq!(String::from_utf8(serialize_tensor(&t3)).unwrap(), "[[[]]]");
}

#[test]
fn round_trip_preserves_structure_and_order() {
    let t = vec![
        vec![
            vec![fr(1, 2, 3, 4), fr(5, 6, 7, 8)],
            vec![fr(9, 0, 0, 0)],
        ],
        vec![vec![fr(123456789, 987654321, 42, 0)]],
    ];
    let bytes = serialize_tensor(&t);
    let back = deserialize_tensor(&bytes).expect("canonical bytes must parse");
    assert_eq!(back, t);
}

#[test]
fn round_trip_empty_shapes() {
    for t in [
        Vec::<Vec<Vec<Fr>>>::new(),
        vec![vec![]],
        vec![vec![vec![]]],
        vec![vec![vec![], vec![fr(7, 7, 7, 7)]]],
    ] {
        let bytes = serialize_tensor(&t);
        assert_eq!(deserialize_tensor(&bytes), Some(t));
    }
}

#[test]
fn deserialize_rejects_non_canonical() {
    for s in [
        "",
        "[",
        "]",
        "[[",
        "[[[1,2,3,4]]]",      // element must be wrapped once more
        "[[[[1,2,3]]]]",      // three limbs only
        "[[[[1,2,3,4,5]]]]",  // five limbs
        "[[[[01,2,3,4]]]]",   // leading zero
        "[[[[1, 2,3,4]]]]",   // whitespace
        "[[[[1,2,3,4]]]] ",   // trailing bytes
        "[[[[18446744073709551616,0,0,0]]]]", // limb above u64::MAX
    ] {
        assert_eq!(deserialize_tensor(&s.as_bytes().to_vec()), None, "{s:?}");
    }
}

#[test]
fn serialized_form_is_json() {
    // the canonical bytes parse as ordinary JSON into the same numbers
    let t = vec![vec![
        vec![fr(0, 1, 2, 3), fr(u64::MAX, 0, 77, 4)],
        vec![],
    ]];
    let bytes = serialize_tensor(&t);
    let v: Vec<Vec<Vec<Vec<u64>>>> = serde_json::from_slice(&bytes).unwrap();
    assert_eq!(
        v,
        vec![vec![vec![vec![0, 1, 2, 3], vec![u64::MAX, 0, 77, 4]], vec![]]]
    );
}
