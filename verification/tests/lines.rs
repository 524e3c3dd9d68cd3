use docker_source_checksum::lines::get_coalesced_lines_from_dockerfile_content;
use docker_source_checksum::error::{Command, ParseError};

fn lines(content: &str) -> Vec<String> {
    get_coalesced_lines_from_dockerfile_content(content).expect("the content should parse")
}

#[test]
fn continuation_joins_two_lines() {
    assert_eq!(lines("COPY a \\\nb dst"), vec!["COPY a b dst".to_string()]);
}

#[test]
fn dangling_continuation_is_an_error() {
    assert_eq!(
        get_coalesced_lines_from_dockerfile_content("foo \\"),
        Err(ParseError::TrailingContinuation)
    );
    assert_eq!(
        get_coalesced_lines_from_dockerfile_content("FROM x\nCOPY a \\\n"),
        Err(ParseError::TrailingContinuation)
    );
}

#[test]
fn empty_file_has_no_lines() {
    assert_eq!(lines(""), Vec::<String>::new());
    assert_eq!(lines("\n"), Vec::<String>::new());
    assert_eq!(lines("  \n\t\n"), Vec::<String>::new());
}

#[test]
fn comments_are_dropped() {
    assert_eq!(
        lines("# syntax\nFROM alpine\n   # indented comment\nRUN true # not a comment\n"),
        vec!["FROM alpine".to_string(), "RUN true # not a comment".to_string()]
    );
}

#[test]
fn comment_inside_a_continuation_does_not_end_it() {
    assert_eq!(
        lines("RUN a \\\n# explain\n  b\nCMD c"),
        vec!["RUN a b".to_string(), "CMD c".to_string()]
    );
}

#[test]
fn lines_are_trimmed_and_blank_lines_dropped() {
    assert_eq!(
        lines("  FROM alpine  \r\n\r\n\tCOPY a b\u{a0}\n"),
        vec!["FROM alpine".to_string(), "COPY a b".to_string()]
    );
}

#[test]
fn continuation_keeps_inner_space_and_drops_the_marker() {
    assert_eq!(lines("RUN a\\\nb"), vec!["RUN ab".to_string()]);
    assert_eq!(lines("RUN a   \\\n   b"), vec!["RUN a   b".to_string()]);
    assert_eq!(lines("a \\\nb \\\nc"), vec!["a b c".to_string()]);
}

#[test]
fn a_lone_marker_leaves_nothing_pending() {
    assert_eq!(lines("\\"), Vec::<String>::new());
    assert_eq!(lines("\\\nFROM x"), vec!["FROM x".to_string()]);
}

#[test]
fn a_blank_line_closes_a_continuation() {
    assert_eq!(lines("RUN a \\\n\nRUN b"), vec!["RUN a".to_string(), "RUN b".to_string()]);
    assert_eq!(lines("a\\\\\n\nb"), vec!["a\\".to_string(), "b".to_string()]);
}

#[test]
fn final_line_feed_opens_no_line() {
    assert_eq!(lines("FROM a\n"), lines("FROM a"));
    assert_eq!(
        get_coalesced_lines_from_dockerfile_content("a \\\n\n"),
        Ok(vec!["a".to_string()])
    );
}

#[test]
fn coalescing_twice_gives_the_same_lines() {
    let content = "FROM a\nCOPY x \\\n y z\n# c\nADD p q\n";
    assert_eq!(lines(content), lines(content));
    assert_eq!(
        lines(content),
        vec!["FROM a".to_string(), "COPY x y z".to_string(), "ADD p q".to_string()]
    );
}

#[test]
fn error_messages() {
    assert_eq!(ParseError::TrailingContinuation.message(), "Trailing \\");
    assert_eq!(
        ParseError::NoArguments(Command::Copy).message(),
        "No arguments to COPY command?"
    );
    assert_eq!(
        ParseError::NoArguments(Command::Add).message(),
        "No arguments to ADD command?"
    );
}
