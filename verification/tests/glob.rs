
#[test]
fn literal() {
    assert!(ddbug::glob::matches("src/file.c", "src/file.c"));
    assert!(!ddbug::glob::matches("src/file.c", "src/myfile.c"));
    assert!(!ddbug::glob::matches("src/file.c", "src/fill.c"));
}

#[test]
fn empty() {
    assert!(ddbug::glob::matches("", ""));
    assert!(!ddbug::glob::matches("", "src/file.c"));
}

#[test]
fn end() {
    assert!(ddbug::glob::matches("src/file.c", "src/file.c"));
    assert!(!ddbug::glob::matches("src/file.c", "src/file"));
    assert!(!ddbug::glob::matches("src/file", "src/file.c"));
}

#[test]
fn start() {
    assert!(ddbug::glob::matches("file.c", "src/file.c"));
    assert!(!ddbug::glob::matches("file.c", "src/myfile.c"));
    assert!(ddbug::glob::matches("src/file.c", "/home/user/src/file.c"));
    assert!(!ddbug::glob::matches("src/file.c", "/home/user/mysrc/file.c"));
}

#[test]
fn root() {
    assert!(ddbug::glob::matches("/home/user/src/file.c", "/home/user/src/file.c"));
    assert!(!ddbug::glob::matches("/src/file.c", "/home/user/src/file.c"));
    assert!(ddbug::glob::matches("/home/", "/home/user/src/file.c"));
    assert!(!ddbug::glob::matches("/src/", "/home/user/src/file.c"));
}

#[test]
fn directory() {
    assert!(ddbug::glob::matches("src/", "src/file.c"));
    assert!(ddbug::glob::matches("src/", "/home/user/src/file.c"));
    assert!(ddbug::glob::matches("src/", "/home/user/src/sub/file.c"));
    assert!(ddbug::glob::matches("src/", "src/"));
    assert!(!ddbug::glob::matches("src/", "src"));
    assert!(!ddbug::glob::matches("src/", "src2/"));
}

#[test]
fn question() {
    assert!(ddbug::glob::matches("fi?e.c", "src/file.c"));
    assert!(!ddbug::glob::matches("src?file.c", "src/file.c"));
    assert!(!ddbug::glob::matches("file.c?", "src/file.c"));
}

#[test]
fn star() {
    assert!(ddbug::glob::matches("*.c", "src/file.c"));
    assert!(ddbug::glob::matches("src/*.c", "src/file.c"));
    assert!(ddbug::glob::matches("src/file*", "src/file.c"));
    assert!(ddbug::glob::matches("src/file.c*", "src/file.c"));
    assert!(ddbug::glob::matches("fi*le.c", "src/file.c"));
    assert!(ddbug::glob::matches("f*l*.c", "src/file.c"));
    assert!(ddbug::glob::matches("f*e*.c", "src/file.c"));
    assert!(!ddbug::glob::matches("f*f*.c", "src/file.c"));
    assert!(ddbug::glob::matches("src/*/*.c", "src/sub/file.c"));
    assert!(!ddbug::glob::matches("src/*.c", "src/sub/file.c"));
}

#[test]
fn utf8() {
    assert!(ddbug::glob::matches("fi?e.c", "src/fiłe.c"));
    assert!(!ddbug::glob::matches("fi??e.c", "src/fiłe.c"));
    assert!(ddbug::glob::matches("fi*e.c", "src/fiłe.c"));
}

#[test]
fn star_star() {
    assert!(ddbug::glob::matches("src/**.c", "src/file.c"));
    assert!(!ddbug::glob::matches("src/**.c", "src/sub/file.c"));
    // Trailing `/**` means directory.
    assert!(ddbug::glob::matches("src/**", "src/file.c"));
    assert!(ddbug::glob::matches("src/**", "src/sub/file.c"));
    assert!(!ddbug::glob::matches("src/**", "src"));
    // Trailing `/**/` also means directory.
    assert!(ddbug::glob::matches("src/**/", "src/file.c"));
    assert!(ddbug::glob::matches("src/**/", "src/sub/file.c"));
    assert!(!ddbug::glob::matches("src/**/", "src"));
    // Leading `**/` is ignored.
    assert!(ddbug::glob::matches("**/file.c", "file.c"));
    assert!(ddbug::glob::matches("**/file.c", "src/file.c"));
    assert!(ddbug::glob::matches("**/src/", "/src/file.c"));
}

#[test]
fn slash_star_star_slash() {
    assert!(ddbug::glob::matches("src/**/file.c", "src/file.c"));
    assert!(ddbug::glob::matches("src/**/file.c", "src/sub/file.c"));
    assert!(ddbug::glob::matches("src/**/file.c", "src/sub/sub/file.c"));
    assert!(!ddbug::glob::matches("src/**/file.c", "src/subfile.c"));
    assert!(ddbug::glob::matches("src/**/*.c", "src/file.c"));
    assert!(ddbug::glob::matches("src/**/*.c", "src/sub/file.c"));
    assert!(!ddbug::glob::matches("src/**/*.c", "srcfile.c"));
    assert!(ddbug::glob::matches("s*c/**/file.c", "src/sub/file.c"));
    assert!(ddbug::glob::matches("src/**/fi?e.c", "src/sub/file.c"));
    assert!(ddbug::glob::matches("src/**/*b/file.c", "src/ab/b/file.c"));
    assert!(ddbug::glob::matches("src/**/sub/**/file.c", "src/sub/file.c"));
    assert!(ddbug::glob::matches("src/**/sub/**/file.c", "src/a/sub/b/file.c"));
}

#[test]
fn literal_pattern_matches_same_bytes_or_directory_below() {
    assert!(ddbug::glob::matches("a/b", "a/b"));
    assert!(!ddbug::glob::matches("a/b", "a/bc"));
    assert!(ddbug::glob::matches("a/b/", "a/b/c"));
    assert!(!ddbug::glob::matches("a/b/", "a/b"));
}
