use docker_source_checksum::extract::{
    get_external_paths_from_dockerfile_line, get_paths_from_dockerfile,
};
use docker_source_checksum::error::{Command, ParseError};

fn patterns(line: &str) -> Vec<String> {
    get_external_paths_from_dockerfile_line(line).expect("the line should parse")
}

fn strings(items: &[&str]) -> Vec<String> {
    items.iter().map(|item| item.to_string()).collect()
}

#[test]
fn stage_copy_names_no_path() {
    assert_eq!(patterns("COPY --from=builder /x /y"), Vec::<String>::new());
    assert_eq!(patterns("COPY --from=builder /x /y /z /dst"), Vec::<String>::new());
}

#[test]
fn chown_flag_is_no_source() {
    assert_eq!(patterns("COPY --chown=1000:1000 a.txt /dst"), strings(&["a.txt"]));
}

#[test]
fn chown_then_from_names_no_path() {
    assert_eq!(patterns("COPY --chown=1:1 --from=build /x /y"), Vec::<String>::new());
}

#[test]
fn flags_count_only_in_first_place() {
    assert_eq!(patterns("COPY a --from=b /dst"), strings(&["a", "--from=b"]));
    assert_eq!(
        patterns("COPY --chown=1 --chown=2 a /dst"),
        strings(&["--chown=2", "a"])
    );
    assert_eq!(patterns("COPY --from=b --chown=1 a /dst"), Vec::<String>::new());
}

#[test]
fn sources_are_all_arguments_but_the_last() {
    assert_eq!(patterns("COPY app.py /app/"), strings(&["app.py"]));
    assert_eq!(patterns("ADD src/*.rs Cargo.* /build/"), strings(&["src/*.rs", "Cargo.*"]));
    assert_eq!(patterns("COPY a a /dst"), strings(&["a", "a"]));
}

#[test]
fn a_single_argument_is_a_destination() {
    assert_eq!(patterns("COPY /dst"), Vec::<String>::new());
    assert_eq!(patterns("ADD --chown=1:1"), Vec::<String>::new());
}

#[test]
fn other_commands_name_no_path() {
    assert_eq!(patterns("FROM alpine"), Vec::<String>::new());
    assert_eq!(patterns("RUN cp a b"), Vec::<String>::new());
    assert_eq!(patterns("copy a b"), Vec::<String>::new());
    assert_eq!(patterns("COPYX a b"), Vec::<String>::new());
    assert_eq!(patterns("Add a b"), Vec::<String>::new());
    assert_eq!(patterns("RUN"), Vec::<String>::new());
}

#[test]
fn a_line_without_tokens_names_no_path() {
    assert_eq!(patterns(""), Vec::<String>::new());
    assert_eq!(patterns(" \t "), Vec::<String>::new());
}

#[test]
fn command_without_arguments_is_an_error() {
    assert_eq!(
        get_external_paths_from_dockerfile_line("COPY"),
        Err(ParseError::NoArguments(Command::Copy))
    );
    assert_eq!(
        get_external_paths_from_dockerfile_line("  ADD  "),
        Err(ParseError::NoArguments(Command::Add))
    );
}

#[test]
fn tokens_are_split_at_ascii_white_space_only() {
    assert_eq!(patterns("COPY\ta\x0cb\r\n/dst"), strings(&["a", "b"]));
    assert_eq!(patterns("COPY a\u{a0}b c /dst"), strings(&["a\u{a0}b", "c"]));
    assert_eq!(patterns("COPY a\x0bb /dst"), strings(&["a\x0bb"]));
}

#[test]
fn bracket_form_is_read_as_plain_tokens() {
    assert_eq!(
        patterns("COPY [\"a b\", \"/dst\"]"),
        strings(&["[\"a", "b\","])
    );
    assert_eq!(patterns("COPY [\"a\",\"/dst\"]"), Vec::<String>::new());
}

#[test]
fn patterns_of_a_file_come_in_order() {
    let content = "FROM rust AS build\n\
                   # sources\n\
                   COPY Cargo.toml Cargo.lock \\\n     /build/\n\
                   ADD --chown=1:1 src /build/src\n\
                   RUN cargo build\n\
                   FROM alpine\n\
                   COPY --from=build /build/target/app /app\n\
                   COPY etc/* /etc/\n";
    assert_eq!(
        get_paths_from_dockerfile(content),
        Ok(strings(&["Cargo.toml", "Cargo.lock", "src", "etc/*"]))
    );
}

#[test]
fn file_without_copy_names_no_path() {
    assert_eq!(get_paths_from_dockerfile(""), Ok(Vec::<String>::new()));
    assert_eq!(get_paths_from_dockerfile("FROM a\nRUN b\n"), Ok(Vec::<String>::new()));
}

#[test]
fn file_errors_are_passed_on() {
    assert_eq!(
        get_paths_from_dockerfile("COPY a b\nCOPY c \\"),
        Err(ParseError::TrailingContinuation)
    );
    assert_eq!(
        get_paths_from_dockerfile("COPY a b\nADD\nCOPY\n"),
        Err(ParseError::NoArguments(Command::Add))
    );
    assert_eq!(
        get_paths_from_dockerfile("COPY \\\n\nCOPY a b"),
        Err(ParseError::NoArguments(Command::Copy))
    );
}
