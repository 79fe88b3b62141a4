use jsonparse::page::{parse_request, render_page, HTML};
use jsonparse::scenario::UserData;

#[test]
fn request_that_is_no_post_gives_a_blank_user() {
    let u = parse_request("GET / HTTP/1.1\r\nHost: x\r\n\r\nsid=1&msg_in=hi").unwrap();
    assert_eq!((u.sid.as_str(), u.msg_in.as_str()), ("", ""));
    assert_eq!((u.msg_out.as_str(), u.script.as_str()), ("", ""));
    let u = parse_request("").unwrap();
    assert_eq!((u.sid.as_str(), u.msg_in.as_str()), ("", ""));
}

#[test]
fn posted_form_gives_sid_and_message() {
    let u = parse_request("POST / HTTP/1.1\r\nHost: x\r\n\r\nsid=12345&msg_in=hello+world").unwrap();
    assert_eq!(u.sid, "12345");
    assert_eq!(u.msg_in, "hello+world");
    assert_eq!((u.msg_out.as_str(), u.script.as_str()), ("", ""));
}

#[test]
fn first_of_each_mark_counts() {
    let u = parse_request("POST /x\r\n\r\nsid=a sid=b&msg_in=c&msg_in=d").unwrap();
    assert_eq!(u.sid, "a sid=b");
    assert_eq!(u.msg_in, "c&msg_in=d");
}

#[test]
fn empty_sid_and_empty_message_are_read() {
    let u = parse_request("POST /\r\n\r\nsid=&msg_in=").unwrap();
    assert_eq!((u.sid.as_str(), u.msg_in.as_str()), ("", ""));
}

#[test]
fn places_are_counted_in_characters() {
    let u = parse_request("POST /\u{e9}\u{4e2d}\r\n\r\nsid=\u{e9}7&msg_in=\u{4e2d}!").unwrap();
    assert_eq!(u.sid, "\u{e9}7");
    assert_eq!(u.msg_in, "\u{4e2d}!");
}

#[test]
fn post_without_its_marks_in_order_gives_none() {
    assert!(parse_request("POST / HTTP/1.1\r\n\r\nmsg_in=hi").is_none());
    assert!(parse_request("POST / HTTP/1.1\r\n\r\nsid=1").is_none());
    assert!(parse_request("POST / HTTP/1.1\r\n\r\n&msg_in=hi sid=1").is_none());
    assert!(parse_request("POST /sid&msg_in=").is_none());
}

#[test]
fn page_is_filled_in_after_the_status_line() {
    let u = UserData {
        sid: "42".to_string(),
        msg_in: "ignored".to_string(),
        msg_out: "Ann, how are you feeling ?".to_string(),
        script: "go()".to_string(),
    };
    let page = render_page(&u);
    assert!(page.starts_with("HTTP/1.1 200 OK\r\n\r\n\n    <!DOCTYPE html>"));
    assert!(page.contains("value=\"42\"/>"));
    assert!(page.contains("<div>\n            Ann, how are you feeling ?\n        </div>"));
    assert!(page.contains("<script>\n            go()\n        </script>"));
    assert!(!page.contains("{:sid}") && !page.contains("{:msg_out}") && !page.contains("{:script}"));
    assert_eq!(page.len(), "HTTP/1.1 200 OK\r\n\r\n".len() + HTML.len() - 25 + 2 + 26 + 4);
}

#[test]
fn marks_in_what_is_filled_in_first_are_filled_in_later() {
    let u = UserData {
        sid: "{:msg_out}".to_string(),
        msg_in: String::new(),
        msg_out: "m".to_string(),
        script: String::new(),
    };
    let page = render_page(&u);
    assert!(page.contains("value=\"m\"/>"));
}
