use passkey::registry::{
    handles_for, lines_file, names_for, root_remove, root_store, user_registered, StoreError,
};

#[test]
fn writes_lines_without_blanks() {
    assert_eq!(lines_file::<&str>(&[]), "");
    assert_eq!(lines_file(&["", "a:b", ""]), "a:b\n");
    assert_eq!(lines_file(&["a", "b".to_string().as_str()]), "a\nb\n");
}

#[test]
fn registration_requires_a_nonempty_credential() {
    let keys = "alice:key,data\nbob:\n";
    assert!(user_registered(keys, "alice"));
    assert!(!user_registered(keys, "bob"));
    assert!(!user_registered(keys, "ali"));
}

#[test]
fn lines_of_strings_make_a_file() {
    let lines = vec!["x".to_string(), String::new(), "y z".to_string()];
    assert_eq!(lines_file(&lines), "x\ny z\n");
}

#[test]
fn stored_credential_is_listed() {
    let files = root_store(":h1,k1,es256,+presence\nPixel\n", "", "", "alice").unwrap();
    assert_eq!(files.keys, "alice:h1,k1,es256,+presence\n");
    assert_eq!(files.names, "alice\th1\tPixel\n");
    assert_eq!(handles_for(&files.keys, "alice"), ["h1"]);
    assert!(user_registered(&files.keys, "alice"));

    let more = root_store(":h2,k2\nTablet", &files.keys, &files.names, "alice").unwrap();
    assert_eq!(more.keys, "alice:h1,k1,es256,+presence:h2,k2\n");
    assert_eq!(handles_for(&more.keys, "alice"), ["h1", "h2"]);
    assert_eq!(names_for(&more.keys, &more.names, "alice"), ["Pixel", "Tablet"]);
}

#[test]
fn storing_leaves_other_users() {
    let files = root_store(":h3,k\nPhone\n", "bob:b1,k:b2,k\n\n", "bob\tb1\tOne\n\n", "alice").unwrap();
    assert_eq!(files.keys, "bob:b1,k:b2,k\nalice:h3,k\n");
    assert_eq!(files.names, "bob\tb1\tOne\nalice\th3\tPhone\n");
    assert_eq!(handles_for(&files.keys, "bob"), ["b1", "b2"]);
    assert_eq!(names_for(&files.keys, &files.names, "bob"), ["One", "Android device 2"]);
}

#[test]
fn refused_registrations() {
    assert_eq!(root_store("", "", "", "a").unwrap_err(), StoreError::MissingCredential);
    assert_eq!(root_store(":h,k\n", "", "", "a").unwrap_err(), StoreError::MissingName);
    assert_eq!(root_store("h,k\nname\n", "", "", "a").unwrap_err(), StoreError::Invalid);
    assert_eq!(root_store(":h,k\na\tb\n", "", "", "a").unwrap_err(), StoreError::Invalid);
    assert_eq!(root_store(":h,k\na\rb\n", "", "", "a").unwrap_err(), StoreError::Invalid);
    assert_eq!(StoreError::MissingCredential.message(), "missing credential");
    assert_eq!(StoreError::MissingName.message(), "missing name");
    assert_eq!(StoreError::Invalid.message(), "invalid registration data");
}

#[test]
fn removed_handle_is_gone() {
    let keys = "alice:h1,k1:h2,k2\nbob:h1,x\n";
    let names = "alice\th1\tPixel\nalice\th2\tTablet\nbob\th1\tOther\n";
    let files = root_remove(keys, names, "alice", "h1");
    assert_eq!(files.keys, "alice:h2,k2\nbob:h1,x\n");
    assert_eq!(files.names, "alice\th2\tTablet\nbob\th1\tOther\n");
    assert_eq!(names_for(&files.keys, &files.names, "alice"), ["Tablet"]);
    assert_eq!(names_for(&files.keys, &files.names, "bob"), ["Other"]);

    let last = root_remove(&files.keys, &files.names, "alice", "h2");
    assert_eq!(last.keys, "bob:h1,x\n");
    assert_eq!(last.names, "bob\th1\tOther\n");
    assert!(!user_registered(&last.keys, "alice"));
}

#[test]
fn removing_undoes_storing() {
    let keys = "alice:h1,k1\nbob:b,k\n";
    let stored = root_store(":h2,k2\nNew\n", keys, "", "alice").unwrap();
    let removed = root_remove(&stored.keys, &stored.names, "alice", "h2");
    assert_eq!(removed.keys, keys);
    assert_eq!(removed.names, "");
    assert_eq!(handles_for(&removed.keys, "alice"), ["h1"]);
}

#[test]
fn removing_restores_the_files() {
    let keys = "carol:c,k\nalice:h1,k1:h3,k3\nbob:h2,k\n";
    let names = "alice\th1\tPixel\nbob\th2\tPhone\nalice\th3\tTablet\n";
    let stored = root_store(":h2,k2,es256\nNew phone\n", keys, names, "alice").unwrap();
    assert_ne!(stored.keys, keys);
    assert_ne!(stored.names, names);
    let removed = root_remove(&stored.keys, &stored.names, "alice", "h2");
    assert_eq!(removed.keys, keys);
    assert_eq!(removed.names, names);

    let first = root_store(":h2,k2\nNew phone\n", keys, names, "dave").unwrap();
    let gone = root_remove(&first.keys, &first.names, "dave", "h2");
    assert_eq!(gone.keys, keys);
    assert_eq!(gone.names, names);
}

#[test]
fn carriage_return_behind_the_handle_does_not_matter() {
    let keys = "alice:h1,k1\nbob:b,k\n";
    let names = "alice\th1\tPixel\n";
    let stored = root_store(":h2,k2\r\r\nNew\n", keys, names, "alice").unwrap();
    assert_eq!(stored.keys, "alice:h1,k1:h2,k2\r\nbob:b,k\n");
    assert_eq!(handles_for(&stored.keys, "alice"), ["h1", "h2"]);
    assert_eq!(handles_for(&stored.keys, "bob"), ["b"]);
    let removed = root_remove(&stored.keys, &stored.names, "alice", "h2");
    assert_eq!(removed.keys, keys);
    assert_eq!(removed.names, names);
}

#[test]
fn carriage_returns_of_others_do_not_matter() {
    // A carriage return of its own ends the lines of alice and of bob.
    let keys = "alice:h1\r\r\nbob:b,k\r\r\n";
    assert_eq!(handles_for(keys, "alice"), ["h1\r"]);
    let stored = root_store(":h2,k2\nNew\n", keys, "", "alice").unwrap();
    assert_eq!(stored.keys, "alice:h1\r:h2,k2\nbob:b,k\r\n");
    assert_eq!(handles_for(&stored.keys, "alice"), ["h1\r", "h2"]);
    assert_eq!(handles_for(&stored.keys, "bob"), ["b"]);
    let removed = root_remove(&stored.keys, &stored.names, "bob", "b");
    assert_eq!(handles_for(&removed.keys, "alice"), ["h1\r", "h2"]);
    assert!(handles_for(&removed.keys, "bob").is_empty());
}

#[test]
fn names_with_colons() {
    let keys = "a:b:x,k\n";
    let stored = root_store(":h,k\nNew\n", keys, "", "a:b").unwrap();
    assert_eq!(stored.keys, "a:b:x,k:h,k\n");
    assert_eq!(handles_for(&stored.keys, "a:b"), ["x", "h"]);
    // The line is another's as well.
    assert_eq!(handles_for(&stored.keys, "a"), ["b", "x", "h"]);
    assert!(handles_for(&stored.keys, "c:d").is_empty());
    let removed = root_remove(&stored.keys, &stored.names, "a:b", "h");
    assert_eq!(removed.keys, keys);
    // A line that is made for such a name does not go.
    let made = root_store(":h,k\nNew\n", "", "", "a:b").unwrap();
    assert_eq!(root_remove(&made.keys, &made.names, "a:b", "h").keys, "a:b\n");
    let handle = root_store(":h,k\nNew\n", "", "", "a:h").unwrap();
    assert_eq!(root_remove(&handle.keys, &handle.names, "a:h", "h").keys, "");
}

#[test]
fn stored_name_is_listed() {
    let keys = "alice:h1,k1\n";
    let names = "alice\th1\tPixel\n";
    let stored = root_store(":h2,k2\nTablet\n", keys, names, "alice").unwrap();
    assert_eq!(names_for(&stored.keys, &stored.names, "alice"), ["Pixel", "Tablet"]);
    let nameless = root_store(":h2,k2\n\n", keys, names, "alice").unwrap();
    assert_eq!(
        names_for(&nameless.keys, &nameless.names, "alice"),
        ["Pixel", "Android device 2"]
    );
}

#[test]
fn names_fall_back_to_numbers() {
    let keys = "alice:h1,k:,k:h2,k\n";
    assert_eq!(handles_for(keys, "alice"), ["h1", "h2"]);
    let names = "alice\th1\t\nalice\th1\tLate\nalice\th2\tTwo\tparts\nalice\th2\n";
    assert_eq!(names_for(keys, names, "alice"), ["Android device 1", "Two\tparts"]);
    assert!(handles_for(keys, "al").is_empty());
}
