use nail::std_lib::archive::safe_member_parts;
use std::path::{Path, PathBuf};

/// Where a member lands under the extraction directory, as the extraction
/// joins its parts on.
fn placed(root: &Path, member: &str) -> Result<PathBuf, String> {
    let mut out = root.to_path_buf();
    for part in safe_member_parts(member)? {
        out.push(part);
    }
    return Ok(out);
}

#[test]
fn an_entry_pointing_outside_the_directory_is_refused() {
    let root = Path::new("/tmp/extract-here");
    assert!(placed(root, "../../etc/cron.d/anything").is_err());
    assert!(placed(root, "/etc/passwd").is_err());
    assert!(placed(root, "..").is_err());
    assert!(placed(root, "").is_err());

    let inside = placed(root, "nested/under.txt").expect("a plain path");
    assert_eq!(inside, root.join("nested").join("under.txt"));
    // A leading `./` is harmless and is simply dropped.
    assert_eq!(placed(root, "./top.txt").expect("a plain path"), root.join("top.txt"));
}

#[test]
fn refusals_name_the_entry_and_the_reason() {
    assert_eq!(
        safe_member_parts("a/../b").unwrap_err(),
        "the archive holds an entry named `a/../b`, which points outside the directory being extracted into"
    );
    assert_eq!(safe_member_parts("././/").unwrap_err(), "the archive holds an entry named `././/`, which names no file");
    assert_eq!(safe_member_parts("a//./b/").unwrap(), vec!["a".to_string(), "b".to_string()]);
    assert_eq!(safe_member_parts("...").unwrap(), vec!["...".to_string()]);
}
