use ircd_core::client_commands::{parse_command, ClientCommand, Failure, Quit, User, Verb};

#[test]
fn client_commands_parse_nick_test() {
    assert_eq!(
        parse_command("NICK Somebody1 0".to_string()).unwrap(),
        ClientCommand::Nick("Somebody1".to_string(), 0u32)
    );

    assert_eq!(
        parse_command("NICK Somebody1".to_string()).unwrap(),
        ClientCommand::Nick("Somebody1".to_string(), 0)
    );
}

#[test]
fn client_commands_parse_join_test() {
    assert_eq!(
        parse_command("JOIN #test".to_string()).unwrap(),
        ClientCommand::Join(vec!["#test".to_string()], None)
    );

    assert_eq!(
        parse_command("JOIN #test,#test2".to_string()).unwrap(),
        ClientCommand::Join(vec!["#test".to_string(), "#test2".to_string()], None)
    );

    assert_eq!(
        parse_command("JOIN #test,&test2".to_string()).unwrap(),
        ClientCommand::Join(vec!["#test".to_string(), "&test2".to_string()], None)
    );

    assert_eq!(
        parse_command("JOIN #test,&test2 key1".to_string()).unwrap(),
        ClientCommand::Join(
            vec!["#test".to_string(), "&test2".to_string()],
            Some(vec!["key1".to_string()])
        )
    );

    assert_eq!(
        parse_command("JOIN #test,&test2 key1,key2".to_string()).unwrap(),
        ClientCommand::Join(
            vec!["#test".to_string(), "&test2".to_string()],
            Some(vec!["key1".to_string(), "key2".to_string()])
        )
    );
}

#[test]
fn client_commands_parse_user_test() {
    assert_eq!(
        parse_command("USER Username 0 * :real name\r\n".to_string()).unwrap(),
        ClientCommand::User(User {
            user: "Username".to_string(),
            mode: 0u32,
            real_name: "real name".to_string()
        })
    );
}

#[test]
fn client_commands_parse_quit_test() {
    assert_eq!(
        parse_command("QUIT :asdf !5^*%".to_string()).unwrap(),
        ClientCommand::Quit(Quit::new("asdf !5^*%".to_string()))
    );
}

#[test]
fn parse_ping_test() {
    // Verbs are matched case-sensitively: only `PING` is a verb.
    let e = parse_command("Ping abeT456-".to_string()).unwrap_err();
    assert_eq!(e.reason, Failure::UnknownVerb);
    assert_eq!(e.verb, None);
    assert_eq!(
        parse_command("PING abeT456-".to_string()).unwrap(),
        ClientCommand::Ping("abeT456-".to_string())
    )
}

#[test]
fn nick_with_hop_count() {
    assert_eq!(
        parse_command("NICK Somebody1 3".to_string()).unwrap(),
        ClientCommand::Nick("Somebody1".to_string(), 3)
    );
}

#[test]
fn user_without_line_terminator() {
    assert_eq!(
        parse_command("USER Username 0 * :real name".to_string()).unwrap(),
        ClientCommand::User(User {
            user: "Username".to_string(),
            mode: 0,
            real_name: "real name".to_string()
        })
    );
}

#[test]
fn user_real_name_keeps_punctuation() {
    assert_eq!(
        parse_command("USER bob 8 * :Bob O'Neil: the 2nd".to_string()).unwrap(),
        ClientCommand::User(User {
            user: "bob".to_string(),
            mode: 8,
            real_name: "Bob O'Neil: the 2nd".to_string()
        })
    );
}

#[test]
fn quit_bye_now() {
    let cmd = parse_command("QUIT :bye now".to_string()).unwrap();
    assert_eq!(cmd, ClientCommand::Quit(Quit::new("bye now".to_string())));
    if let ClientCommand::Quit(q) = cmd {
        assert_eq!(q.get_msg(), "bye now");
    }
}

#[test]
fn quit_without_colon_is_an_error() {
    let e = parse_command("QUIT bye now".to_string()).unwrap_err();
    assert_eq!(e.verb, Some(Verb::Quit));
    assert_eq!(e.position, 5);
    assert_eq!(e.reason, Failure::ExpectedColon);
}

#[test]
fn ping_upper_case() {
    assert_eq!(
        parse_command("PING tok:en".to_string()).unwrap(),
        ClientCommand::Ping("tok:en".to_string())
    );
}

#[test]
fn cap_takes_the_rest_of_the_line() {
    assert_eq!(
        parse_command("CAP LS 302\r\n".to_string()).unwrap(),
        ClientCommand::Cap("LS 302".to_string())
    );
}

#[test]
fn leading_terminator_is_skipped() {
    assert_eq!(
        parse_command("\r\nNICK a".to_string()).unwrap(),
        ClientCommand::Nick("a".to_string(), 0)
    );
    assert_eq!(
        parse_command("\nNICK a".to_string()).unwrap(),
        ClientCommand::Nick("a".to_string(), 0)
    );
}

#[test]
fn unknown_verb_is_an_error() {
    let e = parse_command("PRIVMSG #a :hi".to_string()).unwrap_err();
    assert_eq!(e.verb, None);
    assert_eq!(e.position, 0);
    assert_eq!(e.reason, Failure::UnknownVerb);
    assert_eq!(parse_command("nick a".to_string()).unwrap_err().reason, Failure::UnknownVerb);
    assert_eq!(parse_command("".to_string()).unwrap_err().reason, Failure::UnknownVerb);
}

#[test]
fn missing_space_after_verb() {
    let e = parse_command("NICKa".to_string()).unwrap_err();
    assert_eq!(e.verb, Some(Verb::Nick));
    assert_eq!(e.position, 4);
    assert_eq!(e.reason, Failure::ExpectedSpace);
}

#[test]
fn empty_channel_list_is_an_error() {
    let e = parse_command("JOIN key".to_string()).unwrap_err();
    assert_eq!(e.reason, Failure::ExpectedChannel);
    assert_eq!(e.position, 5);
    assert_eq!(parse_command("JOIN #".to_string()).unwrap_err().reason, Failure::ExpectedChannel);
}

#[test]
fn join_with_empty_key_list() {
    assert_eq!(
        parse_command("JOIN #a ".to_string()).unwrap(),
        ClientCommand::Join(vec!["#a".to_string()], Some(vec![]))
    );
}

#[test]
fn join_dangling_comma_is_trailing_input() {
    let e = parse_command("JOIN #a,b".to_string()).unwrap_err();
    assert_eq!(e.reason, Failure::TrailingInput);
    assert_eq!(e.position, 7);
}

#[test]
fn nick_hop_count_overflow_is_trailing_input() {
    let e = parse_command("NICK a 4294967296".to_string()).unwrap_err();
    assert_eq!(e.reason, Failure::TrailingInput);
    assert_eq!(e.position, 6);
    assert_eq!(
        parse_command("NICK a 4294967295".to_string()).unwrap(),
        ClientCommand::Nick("a".to_string(), 4294967295)
    );
}

#[test]
fn user_errors() {
    assert_eq!(parse_command("USER :x".to_string()).unwrap_err().reason, Failure::ExpectedName);
    assert_eq!(parse_command("USER bob".to_string()).unwrap_err().reason, Failure::ExpectedSpace);
    assert_eq!(parse_command("USER bob x".to_string()).unwrap_err().reason, Failure::ExpectedNumber);
    assert_eq!(
        parse_command("USER bob 99999999999 * :x".to_string()).unwrap_err().reason,
        Failure::ExpectedNumber
    );
    assert_eq!(parse_command("USER bob 0 * x".to_string()).unwrap_err().reason, Failure::ExpectedColon);
    assert_eq!(parse_command("USER bob 0 ".to_string()).unwrap_err().reason, Failure::ExpectedToken);
}

#[test]
fn ping_without_token() {
    let e = parse_command("PING  ".to_string()).unwrap_err();
    assert_eq!(e.reason, Failure::ExpectedToken);
    assert_eq!(e.position, 6);
}

#[test]
fn next_message_is_not_swallowed() {
    let e = parse_command("QUIT :a\nNICK b".to_string()).unwrap_err();
    assert_eq!(e.reason, Failure::TrailingInput);
    assert_eq!(e.position, 7);
}

#[test]
fn positions_count_bytes() {
    let e = parse_command("NICK é".to_string()).unwrap_err();
    assert_eq!(e.position, 5);
    assert_eq!(e.reason, Failure::ExpectedName);
    let e = parse_command("QUIT :é\nNICK b".to_string()).unwrap_err();
    assert_eq!(e.reason, Failure::TrailingInput);
    assert_eq!(e.position, 8);
    let e = parse_command("QUIT :日本\nx".to_string()).unwrap_err();
    assert_eq!(e.position, 12);
}

#[test]
fn optional_parameters_follow_any_whitespace() {
    assert_eq!(
        parse_command("JOIN #a\tk1,k2".to_string()).unwrap(),
        ClientCommand::Join(vec!["#a".to_string()], Some(vec!["k1".to_string(), "k2".to_string()]))
    );
    assert_eq!(
        parse_command("NICK a \t7".to_string()).unwrap(),
        ClientCommand::Nick("a".to_string(), 7)
    );
    assert_eq!(
        parse_command("JOIN #a\rkey".to_string()).unwrap(),
        ClientCommand::Join(vec!["#a".to_string()], Some(vec!["key".to_string()]))
    );
}

#[test]
fn line_terminator_is_no_separator() {
    assert_eq!(
        parse_command("JOIN #test\r\n".to_string()).unwrap(),
        ClientCommand::Join(vec!["#test".to_string()], None)
    );
    assert_eq!(
        parse_command("NICK a\n".to_string()).unwrap(),
        ClientCommand::Nick("a".to_string(), 0)
    );
}
