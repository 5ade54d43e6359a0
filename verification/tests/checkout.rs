use my_git::commands::checkout::{Checkout, CheckoutAction, CheckoutError, CheckoutEvent};
use my_git::objects::ObjectError;
use my_git::packfile::ObjectKind;

fn tree(entries: &[(&[u8], &[u8], u8)]) -> Vec<u8> {
    let mut out = Vec::new();
    for (mode, name, fill) in entries {
        out.extend_from_slice(mode);
        out.push(b' ');
        out.extend_from_slice(name);
        out.push(0);
        out.extend_from_slice(&[*fill; 20]);
    }
    out
}

fn object(kind: ObjectKind, content: &[u8]) -> CheckoutEvent {
    CheckoutEvent::Object { kind, content: content.to_vec() }
}

#[test]
fn checkout_walks_commit_tree_and_blobs_in_order() {
    let mut c = Checkout::new(b"c0".to_vec());
    assert_eq!(c.step(CheckoutEvent::Next), Ok(CheckoutAction::Read { name: b"c0".to_vec() }));
    assert_eq!(c.step(object(ObjectKind::Commit, b"tree t1\nauthor a\n")), Ok(CheckoutAction::Continue));
    // the commit's tree is written at the same place, the root
    assert_eq!(c.step(CheckoutEvent::Next), Ok(CheckoutAction::Read { name: b"t1".to_vec() }));
    let root = tree(&[(b"100755", b"run.sh", 0x11), (b"40000", b"src", 0x22), (b"100644", b"z", 0x33)]);
    assert_eq!(c.step(object(ObjectKind::Tree, &root)), Ok(CheckoutAction::Continue));
    // first entry: made, then its blob written, before the next entry
    assert_eq!(
        c.step(CheckoutEvent::Next),
        Ok(CheckoutAction::CreateFile { path: vec![b"run.sh".to_vec()], permissions: 0o755 })
    );
    assert_eq!(c.step(CheckoutEvent::Next), Ok(CheckoutAction::Read { name: b"11".repeat(20) }));
    assert_eq!(
        c.step(object(ObjectKind::Blob, b"echo hi\n")),
        Ok(CheckoutAction::WriteFile { path: vec![b"run.sh".to_vec()], content: b"echo hi\n".to_vec() })
    );
    // second entry: a directory, whose tree is written below it
    assert_eq!(c.step(CheckoutEvent::Next), Ok(CheckoutAction::CreateDir { path: vec![b"src".to_vec()] }));
    assert_eq!(c.step(CheckoutEvent::Next), Ok(CheckoutAction::Read { name: b"22".repeat(20) }));
    let sub = tree(&[(b"100644", b"lib.rs", 0x44)]);
    assert_eq!(c.step(object(ObjectKind::Tree, &sub)), Ok(CheckoutAction::Continue));
    let lib_path = vec![b"src".to_vec(), b"lib.rs".to_vec()];
    assert_eq!(
        c.step(CheckoutEvent::Next),
        Ok(CheckoutAction::CreateFile { path: lib_path.clone(), permissions: 0o644 })
    );
    assert_eq!(c.step(CheckoutEvent::Next), Ok(CheckoutAction::Read { name: b"44".repeat(20) }));
    assert_eq!(
        c.step(object(ObjectKind::Blob, b"")),
        Ok(CheckoutAction::WriteFile { path: lib_path, content: Vec::new() })
    );
    // only then the third entry of the root
    assert_eq!(
        c.step(CheckoutEvent::Next),
        Ok(CheckoutAction::CreateFile { path: vec![b"z".to_vec()], permissions: 0o644 })
    );
    assert_eq!(c.step(CheckoutEvent::Next), Ok(CheckoutAction::Read { name: b"33".repeat(20) }));
    assert_eq!(c.step(object(ObjectKind::Tag, b"anything")), Ok(CheckoutAction::Continue));
    assert_eq!(c.step(CheckoutEvent::Next), Ok(CheckoutAction::Done));
}

#[test]
fn checkout_errors() {
    let mut c = Checkout::new(b"t".to_vec());
    // an object is handed in before one is asked for
    assert_eq!(c.step(object(ObjectKind::Blob, b"x")), Err(CheckoutError::UnexpectedEvent));
    assert_eq!(c.step(CheckoutEvent::Next), Ok(CheckoutAction::Read { name: b"t".to_vec() }));
    // the object asked for is not handed in
    assert_eq!(c.step(CheckoutEvent::Next), Err(CheckoutError::UnexpectedEvent));
    assert_eq!(
        c.step(object(ObjectKind::Tree, &tree(&[(b"120000", b"link", 0x55)]))),
        Ok(CheckoutAction::Continue)
    );
    assert_eq!(c.step(CheckoutEvent::Next), Err(CheckoutError::UnknownMode));

    let mut c = Checkout::new(b"t".to_vec());
    c.step(CheckoutEvent::Next).unwrap();
    assert_eq!(
        c.step(object(ObjectKind::Tree, b"100644 a")),
        Err(CheckoutError::BadObject { error: ObjectError::BadTree })
    );
}
