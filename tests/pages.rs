use bitcoin_trend::pages::html_construct;

#[test]
fn main_gen_page() {
    let html = html_construct("Not Found", "", "<h1>Not Found</h1><a href='/'>Return to Home</a>");
    assert_eq!(&html[..15], "<!DOCTYPE html>");
}

#[test]
fn mod_gen_page() {
    let html = html_construct("Not Found", "", "<h1>Not Found</h1><a href='/'>Return to Home</a>");
    assert_eq!(&html[..15], "<!DOCTYPE html>");
}

#[test]
fn page_places_its_parts() {
    let html = html_construct("T1", "<script>h()</script>", "<p>b</p>");
    assert!(html.contains("  <script>h()</script>\n  <title>T1</title>\n </head>\n <body>\n <p>b</p>\n </body>\n</html>"));
    assert!(html.ends_with("</html>"));
}
