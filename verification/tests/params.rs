use maxgrep::{Params, ParseError};

fn tokens(list: &[&str]) -> Vec<String> {
    list.iter().map(|token| token.to_string()).collect()
}

fn accepted(list: &[&str]) -> Params {
    match Params::new(tokens(list)) {
        Ok(params) => params,
        Err(error) => panic!("{:?} was rejected: {:?}", list, error),
    }
}

fn fields(params: &Params) -> (String, String, bool, bool, bool) {
    (
        params.query().to_string(),
        params.target().to_string(),
        params.is_case_insensitive(),
        params.shows_line_numbers(),
        params.is_inverted(),
    )
}

fn expected(query: &str, target: &str, c: bool, n: bool, v: bool) -> (String, String, bool, bool, bool) {
    (query.to_string(), target.to_string(), c, n, v)
}

#[test]
fn two_plain_tokens_are_query_and_target() {
    let params = accepted(&["needle", "haystack.txt"]);
    assert_eq!(fields(&params), expected("needle", "haystack.txt", false, false, false));
}

#[test]
fn tokens_are_taken_verbatim() {
    let params = accepted(&["  two words ", ""]);
    assert_eq!(fields(&params), expected("  two words ", "", false, false, false));
    let params = accepted(&["", ""]);
    assert_eq!(fields(&params), expected("", "", false, false, false));
}

#[test]
fn each_flag_alone_sets_its_own_field() {
    assert_eq!(fields(&accepted(&["/n", "q", "f"])), expected("q", "f", false, true, false));
    assert_eq!(fields(&accepted(&["/v", "q", "f"])), expected("q", "f", false, false, true));
    assert_eq!(fields(&accepted(&["/c", "q", "f"])), expected("q", "f", true, false, false));
}

#[test]
fn flags_may_stand_anywhere() {
    let all = expected("q", "f", true, true, true);
    assert_eq!(fields(&accepted(&["/n", "/v", "/c", "q", "f"])), all);
    assert_eq!(fields(&accepted(&["q", "f", "/c", "/v", "/n"])), all);
    assert_eq!(fields(&accepted(&["q", "/n", "/c", "/v", "f"])), all);
    assert_eq!(fields(&accepted(&["/c", "q", "/n", "f", "/v"])), all);
    assert_eq!(fields(&accepted(&["q", "/v", "f"])), expected("q", "f", false, false, true));
    assert_eq!(fields(&accepted(&["q", "f", "/c", "/n"])), expected("q", "f", true, true, false));
}

#[test]
fn every_arrangement_of_three_flags_and_two_tokens_is_accepted() {
    let items = ["/n", "/v", "/c", "query", "file"];
    let mut seen = 0;
    for a in 0..5 {
        for b in 0..5 {
            for c in 0..5 {
                for d in 0..5 {
                    for e in 0..5 {
                        let order = [a, b, c, d, e];
                        let mut used = [false; 5];
                        for index in order {
                            used[index] = true;
                        }
                        if used.iter().any(|u| !u) {
                            continue;
                        }
                        let list: Vec<&str> = order.iter().map(|&index| items[index]).collect();
                        let params = accepted(&list);
                        let query_first = order.iter().position(|&x| x == 3)
                            < order.iter().position(|&x| x == 4);
                        let want = if query_first {
                            expected("query", "file", true, true, true)
                        } else {
                            expected("file", "query", true, true, true)
                        };
                        assert_eq!(fields(&params), want);
                        seen += 1;
                    }
                }
            }
        }
    }
    assert_eq!(seen, 120);
}

#[test]
fn wrong_counts_are_rejected() {
    let rejected: [&[&str]; 9] = [
        &[],
        &["q"],
        &["q", "f", "extra"],
        &["/n"],
        &["/n", "q"],
        &["/n", "/v", "/c"],
        &["/n", "/v", "/c", "q"],
        &["/n", "/v", "/c", "q", "f", "g"],
        &["a", "b", "c", "d"],
    ];
    for list in rejected {
        match Params::new(tokens(list)) {
            Ok(params) => panic!("{:?} was accepted: {:?}", list, params),
            Err(error) => assert_eq!(error, ParseError::InvalidArgumentCount),
        }
    }
}

#[test]
fn a_repeated_flag_counts_as_a_positional() {
    match Params::new(tokens(&["/n", "/n", "q", "f"])) {
        Ok(params) => panic!("accepted: {:?}", params),
        Err(error) => assert_eq!(error, ParseError::InvalidArgumentCount),
    }
    let params = accepted(&["/n", "q", "/n"]);
    assert_eq!(fields(&params), expected("q", "/n", false, true, false));
    let params = accepted(&["/c", "/c", "f"]);
    assert_eq!(fields(&params), expected("/c", "f", true, false, false));
    let params = accepted(&["/v", "/v", "/v", "/n"]);
    assert_eq!(fields(&params), expected("/v", "/v", false, true, true));
}

#[test]
fn an_unknown_flag_is_a_positional() {
    let params = accepted(&["/x", "f"]);
    assert_eq!(fields(&params), expected("/x", "f", false, false, false));
    let params = accepted(&["/N", "/n", "f"]);
    assert_eq!(fields(&params), expected("/N", "f", false, true, false));
    let params = accepted(&["/nv", "f"]);
    assert_eq!(fields(&params), expected("/nv", "f", false, false, false));
    match Params::new(tokens(&["/x", "q", "f"])) {
        Ok(params) => panic!("accepted: {:?}", params),
        Err(error) => assert_eq!(error, ParseError::InvalidArgumentCount),
    }
}

#[test]
fn only_the_first_occurrence_of_a_flag_is_taken() {
    let params = accepted(&["q", "/v", "/v"]);
    assert_eq!(fields(&params), expected("q", "/v", false, false, true));
}

#[test]
fn the_error_has_a_fixed_message() {
    assert_eq!(ParseError::InvalidArgumentCount.message(), "Invalid number of arguments.");
    let error = Params::new(tokens(&["only"])).unwrap_err();
    assert_eq!(error.message(), "Invalid number of arguments.");
}
