use mail_app::{Command, ParseError};

#[test]
fn bare_list_defaults_to_unread() {
    assert_eq!(Command::parse("list"), Ok(Command::ListUnreadMails));
}

#[test]
fn list_mails_is_the_full_listing() {
    assert_eq!(Command::parse("list mails"), Ok(Command::ListMails));
}

#[test]
fn list_unread_is_the_unread_listing() {
    assert_eq!(Command::parse("list unread"), Ok(Command::ListUnreadMails));
}

#[test]
fn read_with_non_numeric_id_is_invalid() {
    assert_eq!(
        Command::parse("read abc"),
        Err(ParseError::InvalidMailId("abc".to_string()))
    );
}

#[test]
fn logout_with_extra_token_is_trailing() {
    assert_eq!(
        Command::parse("logout extra"),
        Err(ParseError::TrailingToken("extra".to_string()))
    );
}

#[test]
fn empty_line_is_empty_input() {
    assert_eq!(Command::parse(""), Err(ParseError::EmptyInput));
}

#[test]
fn unknown_first_token_is_unrecognized() {
    assert_eq!(
        Command::parse("frobnicate"),
        Err(ParseError::UnrecognizedCommand("frobnicate".to_string()))
    );
}

#[test]
fn read_without_id_is_missing_argument() {
    assert_eq!(Command::parse("read"), Err(ParseError::MissingArgument));
    assert_eq!(Command::parse("reply"), Err(ParseError::MissingArgument));
}

#[test]
fn simple_commands_parse() {
    assert_eq!(Command::parse("logout"), Ok(Command::Logout));
    assert_eq!(Command::parse("write"), Ok(Command::WriteMail));
    assert_eq!(Command::parse("help"), Ok(Command::Help));
}

#[test]
fn read_and_reply_carry_the_id() {
    assert_eq!(Command::parse("read 42"), Ok(Command::ReadMail(42)));
    assert_eq!(Command::parse("reply 7"), Ok(Command::ReplyToMail(7)));
}

#[test]
fn signed_and_padded_ids_parse_like_integers() {
    assert_eq!(Command::parse("read -5"), Ok(Command::ReadMail(-5)));
    assert_eq!(Command::parse("read +7"), Ok(Command::ReadMail(7)));
    assert_eq!(Command::parse("read 007"), Ok(Command::ReadMail(7)));
    assert_eq!(Command::parse("read -0"), Ok(Command::ReadMail(0)));
}

#[test]
fn id_range_limits_are_exact() {
    assert_eq!(
        Command::parse("read 2147483647"),
        Ok(Command::ReadMail(2147483647))
    );
    assert_eq!(
        Command::parse("read -2147483648"),
        Ok(Command::ReadMail(-2147483648))
    );
    assert_eq!(
        Command::parse("read 2147483648"),
        Err(ParseError::InvalidMailId("2147483648".to_string()))
    );
    assert_eq!(
        Command::parse("read -2147483649"),
        Err(ParseError::InvalidMailId("-2147483649".to_string()))
    );
}

#[test]
fn sign_alone_is_not_an_id() {
    assert_eq!(
        Command::parse("read -"),
        Err(ParseError::InvalidMailId("-".to_string()))
    );
}

#[test]
fn help_accepts_only_command_names() {
    assert_eq!(
        Command::parse("help list"),
        Ok(Command::CommandHelp("list".to_string()))
    );
    assert_eq!(
        Command::parse("help help"),
        Ok(Command::CommandHelp("help".to_string()))
    );
    assert_eq!(
        Command::parse("help nope"),
        Err(ParseError::TrailingToken("nope".to_string()))
    );
}

#[test]
fn tokens_beyond_the_grammar_are_trailing() {
    assert_eq!(
        Command::parse("list mails now"),
        Err(ParseError::TrailingToken("now".to_string()))
    );
    assert_eq!(
        Command::parse("read 1 2"),
        Err(ParseError::TrailingToken("2".to_string()))
    );
    assert_eq!(
        Command::parse("list what"),
        Err(ParseError::TrailingToken("what".to_string()))
    );
}

#[test]
fn consecutive_spaces_keep_an_empty_token() {
    // "list<space><space>mails" has an empty token between the spaces
    assert_eq!(
        Command::parse("list  mails"),
        Err(ParseError::TrailingToken("".to_string()))
    );
    assert_eq!(
        Command::parse("logout "),
        Err(ParseError::TrailingToken("".to_string()))
    );
}
