use item_stream::error::StreamError;
use item_stream::metadata::{check_metadata, check_version, committed_version, parse_version_text, render_metadata};
use item_stream::object::{plan_read, ReadStep};
use item_stream::registry::SharedFileRegistry;

#[test]
fn metadata_renders_decimal_version() {
    assert_eq!(
        render_metadata(0),
        b"<metadata>\n    <version>0</version>\n</metadata>".to_vec()
    );
    assert_eq!(
        render_metadata(18446744073709551615),
        b"<metadata>\n    <version>18446744073709551615</version>\n</metadata>".to_vec()
    );
    assert_eq!(
        render_metadata(1020),
        b"<metadata>\n    <version>1020</version>\n</metadata>".to_vec()
    );
}

#[test]
fn version_text_parses_like_u64() {
    assert_eq!(parse_version_text(b"42"), 42);
    assert_eq!(parse_version_text(b"+7"), 7);
    assert_eq!(parse_version_text(b"007"), 7);
    assert_eq!(parse_version_text(b"18446744073709551615"), u64::MAX);
    assert_eq!(parse_version_text(b"18446744073709551616"), 0);
    assert_eq!(parse_version_text(b""), 0);
    assert_eq!(parse_version_text(b"+"), 0);
    assert_eq!(parse_version_text(b"-1"), 0);
    assert_eq!(parse_version_text(b" 3"), 0);
    assert_eq!(parse_version_text(b"3x"), 0);
}

#[test]
fn committed_version_reads_first_version_element() {
    assert_eq!(committed_version(b""), Ok(None));
    assert_eq!(committed_version(&render_metadata(12)), Ok(Some(12)));
    assert_eq!(
        committed_version(b"<?xml version=\"1.0\"?><m><!-- c --><version>5</version><version>9</version></m>"),
        Ok(Some(5))
    );
    assert_eq!(committed_version(b"<metadata><other>3</other></metadata>"), Ok(None));
    assert_eq!(committed_version(b"<metadata><version>abc</version></metadata>"), Ok(Some(0)));
    assert_eq!(committed_version(b"<metadata><version>4"), Err(StreamError::MalformedMetadata));
    assert_eq!(committed_version(b"<metadata></wrong><version>4</version>"), Ok(None));
}

#[test]
fn admission_against_metadata() {
    assert_eq!(check_metadata(1, b""), Ok(()));
    assert_eq!(
        check_metadata(5, b"<m><version>5</version><version>1</version></m>"),
        Err(StreamError::StaleVersion { requested: 5, committed: 5 })
    );
    assert_eq!(check_metadata(1, b"<m><version>x</version></m>"), Ok(()));
    assert_eq!(check_metadata(1, b"<m><version>2"), Err(StreamError::MalformedMetadata));
    assert_eq!(check_metadata(4, &render_metadata(3)), Ok(()));
    assert_eq!(
        check_metadata(3, &render_metadata(3)),
        Err(StreamError::StaleVersion { requested: 3, committed: 3 })
    );
    assert_eq!(
        check_version(2, Some(8)),
        Err(StreamError::StaleVersion { requested: 2, committed: 8 })
    );
    assert_eq!(check_version(2, None), Ok(()));
}

#[test]
fn read_planning() {
    assert_eq!(plan_read(0, 10, false, 4), ReadStep::Read { offset: 0, len: 4 });
    assert_eq!(plan_read(8, 10, true, 4), ReadStep::Read { offset: 8, len: 2 });
    assert_eq!(plan_read(10, 10, true, 4), ReadStep::End);
    assert_eq!(plan_read(10, 10, false, 4), ReadStep::Wait);
}

#[test]
fn registry_get_or_create() {
    let mut reg: SharedFileRegistry<u32> = SharedFileRegistry::new();
    let id = "x".to_string();
    assert_eq!(reg.get(&id, 1), None);
    let failed: Result<u32, String> = reg.get_or_create(id.clone(), 1, || Err("no".to_string())).map(|v| *v);
    assert_eq!(failed, Err("no".to_string()));
    assert_eq!(reg.get(&id, 1), None);
    let made: Result<u32, String> = reg.get_or_create(id.clone(), 1, || Ok(5)).map(|v| *v);
    assert_eq!(made, Ok(5));
    let kept: Result<u32, String> = reg.get_or_create(id.clone(), 1, || Ok(6)).map(|v| *v);
    assert_eq!(kept, Ok(5));
    assert_eq!(reg.get(&id, 1), Some(&5));
    assert_eq!(reg.get(&id, 2), None);
    let mut v = 9;
    reg.swap_value(&id, 1, &mut v);
    assert_eq!(v, 5);
    assert_eq!(reg.get(&id, 1), Some(&9));
    reg.remove(&id, 1);
    assert_eq!(reg.get(&id, 1), None);
}
