use backend::reply::{file_headers, make_error, redirect_target};

#[test]
fn redirect_carries_the_path() {
    assert_eq!(redirect_target("/missing"), "/?redirect=%2Fmissing");
    assert_eq!(redirect_target(""), "/?redirect=");
    assert_eq!(redirect_target("abcXYZ019-_.~"), "/?redirect=abcXYZ019-_.~");
    assert_eq!(redirect_target("/a b?c=d&e"), "/?redirect=%2Fa%20b%3Fc%3Dd%26e");
    assert_eq!(redirect_target("/caf\u{E9}"), "/?redirect=%2Fcaf%C3%A9");
    assert_eq!(redirect_target("%"), "/?redirect=%25");
    assert_eq!(redirect_target("\u{0}\u{7F}+"), "/?redirect=%00%7F%2B");
}

#[test]
fn error_body_is_json() {
    let body = make_error("User folder not found");
    let value: serde_json::Value = serde_json::from_str(&body).unwrap();
    assert_eq!(value.get("ok"), Some(&serde_json::Value::Bool(false)));
    assert_eq!(
        value.get("error"),
        Some(&serde_json::Value::String(String::from("User folder not found")))
    );
    assert_eq!(value.as_object().unwrap().len(), 2);
    assert_eq!(body, "{\"error\":\"User folder not found\",\"ok\":false}");
    assert_eq!(make_error("say \"hi\"\n"), "{\"error\":\"say \\\"hi\\\"\\n\",\"ok\":false}");
}

#[test]
fn headers_of_a_file() {
    assert_eq!(
        file_headers("png", "shot.png"),
        (String::from("image/png"), String::from("inline; filename=shot.png"))
    );
    assert_eq!(file_headers("jpg", "a b.jpg").0, "image/jpeg");
    assert_eq!(file_headers("JPG", "a b.jpg").0, "image/jpeg");
    assert_eq!(file_headers("webp", "x").0, "image/webp");
    assert_eq!(file_headers("", "x").0, "application/octet-stream");
    assert_eq!(file_headers("no-such-extension", "x").0, "application/octet-stream");
    assert_eq!(file_headers("png", "").1, "inline; filename=");
}
