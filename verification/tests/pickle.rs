//! The pickle machine.

use maolan_generate::convert::pickle::{rebuild_tensor_v2, Pickle, PickleError, PickleReader};

fn run(bytes: &[u8]) -> Result<Pickle, PickleError> {
    PickleReader::new(bytes).run()
}

fn fails(bytes: &[u8]) -> PickleError {
    match run(bytes) {
        Ok(_) => panic!("must be refused"),
        Err(error) => error,
    }
}

#[test]
fn numbers() {
    assert!(matches!(run(b"K\xff."), Ok(Pickle::Int(255))));
    assert!(matches!(run(b"M\x01\x02."), Ok(Pickle::Int(0x0201))));
    assert!(matches!(run(b"J\xff\xff\xff\xff."), Ok(Pickle::Int(-1))));
    assert!(matches!(run(b"L-12L\n."), Ok(Pickle::Int(-12))));
    assert!(matches!(run(b"\x8a\x02\x00\x80."), Ok(Pickle::Int(-32768))));
    assert!(matches!(run(b"\x8a\x00."), Ok(Pickle::Int(0))));
    assert!(matches!(run(b"\x8b\x01\x00\x00\x00\x7f."), Ok(Pickle::Int(127))));
    assert!(matches!(run(b"\x88."), Ok(Pickle::Bool(true))));
    assert!(matches!(run(b"N."), Ok(Pickle::Null)));
}

#[test]
fn texts() {
    match run("X\u{2}\0\0\0é.".as_bytes()) {
        Ok(Pickle::Str(text)) => assert_eq!(text, "é"),
        _ => panic!("a text"),
    }
    match run(b"U\x02a\xff.") {
        Ok(Pickle::Str(text)) => assert_eq!(text, "a\u{fffd}"),
        _ => panic!("a text"),
    }
}

#[test]
fn memo_and_tuples() {
    match run(b"(K\x01q\x05h\x05t.") {
        Ok(Pickle::Tuple(items)) => {
            assert_eq!(items.len(), 2);
            assert!(matches!(items[1], Pickle::Int(1)));
        }
        _ => panic!("a tuple"),
    }
    match run(b"K\x01K\x02\x86.") {
        Ok(Pickle::Tuple(items)) => assert_eq!(items.len(), 2),
        _ => panic!("a tuple"),
    }
}

#[test]
fn errors() {
    assert!(matches!(fails(b""), PickleError::EndOfStream));
    assert!(matches!(fails(b"cnever"), PickleError::UnterminatedLine));
    assert!(matches!(fails(b"\x85."), PickleError::StackUnderflow));
    assert!(matches!(fails(b"t"), PickleError::MarkUnderflow));
    assert!(matches!(fails(b"Lx\n."), PickleError::InvalidLong(_)));
    assert!(matches!(fails(b"\x8a\x09123456789."), PickleError::LongTooWide(9)));
    assert!(matches!(fails(b"X\x01\0\0\0\xff."), PickleError::InvalidUnicode));
    assert!(matches!(fails(b"\x8c\x01\xff."), PickleError::InvalidShortUnicode));
    assert!(matches!(fails(b"h\x03."), PickleError::MemoNotSet(3)));
    assert!(matches!(fails(b"."), PickleError::EmptyAtStop));
    assert!(matches!(fails(b"\x00"), PickleError::UnsupportedOpcode(0, _)));
    assert!(matches!(fails(b"K\x01)R."), PickleError::NonGlobalCallable));
    assert!(matches!(fails(b"ca\nb\n)(Rt."), PickleError::MarkAboveStack));
    assert!(fails(b"\x00").message().contains("0x00"));
    assert!(fails(b"h\x03.").message().contains('3'));
}

#[test]
fn tensors_are_checked() {
    let storage = |class: Pickle, key: Pickle| {
        Pickle::Tuple(vec![
            Pickle::Str("storage".to_string()),
            class,
            key,
            Pickle::Str("cpu".to_string()),
            Pickle::Int(6),
        ])
    };
    let class = || Pickle::Global("torch".to_string(), "FloatStorage".to_string());
    let key = || Pickle::Str("0".to_string());
    let persistent = |class: Pickle, key: Pickle| Pickle::PersistentId(Box::new(storage(class, key)));
    let shape = |dim: Pickle| Pickle::Tuple(vec![dim, Pickle::Int(3)]);

    let good = vec![persistent(class(), key()), Pickle::Int(0), shape(Pickle::Int(2))];
    let spec = rebuild_tensor_v2(&good).expect("a tensor");
    assert_eq!(spec.storage_type, "FloatStorage");
    assert_eq!(spec.shape, vec![2, 3]);

    assert!(matches!(rebuild_tensor_v2(&[]), Err(PickleError::MissingStorageId)));
    assert!(matches!(
        rebuild_tensor_v2(&[Pickle::PersistentId(Box::new(Pickle::Int(1)))]),
        Err(PickleError::StorageIdNotTuple)
    ));
    assert!(matches!(
        rebuild_tensor_v2(&[Pickle::PersistentId(Box::new(Pickle::Tuple(vec![])))]),
        Err(PickleError::UnexpectedStorageTuple)
    ));
    assert!(matches!(
        rebuild_tensor_v2(&[persistent(Pickle::Int(1), key()), Pickle::Int(0), shape(Pickle::Int(2))]),
        Err(PickleError::UnexpectedStorageClass(_))
    ));
    assert!(matches!(
        rebuild_tensor_v2(&[persistent(class(), Pickle::Int(1)), Pickle::Int(0), shape(Pickle::Int(2))]),
        Err(PickleError::UnexpectedStorageKey(_))
    ));
    assert!(matches!(
        rebuild_tensor_v2(&[persistent(class(), key()), Pickle::Int(-1), shape(Pickle::Int(2))]),
        Err(PickleError::UnexpectedStorageOffset(_))
    ));
    assert!(matches!(
        rebuild_tensor_v2(&[persistent(class(), key()), Pickle::Int(0), shape(Pickle::Int(-2))]),
        Err(PickleError::UnexpectedDimension(_))
    ));
    assert!(matches!(
        rebuild_tensor_v2(&[persistent(class(), key()), Pickle::Int(0), Pickle::Int(1)]),
        Err(PickleError::UnexpectedSize(_))
    ));
}
