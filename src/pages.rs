use vstd::prelude::*;
use vstd::string::*;

verus! {

/// The page that wraps `head_extra`, `title` and `body` with the shared
/// scripts, styles and boilerplate of every page.
pub open spec fn page_text(title: Seq<char>, head_extra: Seq<char>, body: Seq<char>) -> Seq<char> {
    "<!DOCTYPE html>
<html>
 <head>
  <meta charset='utf-8'/>
  <meta http-equiv='X-UA-Compatible' content='IE=edge'/>
  <meta name='viewport' content='height=device-height, width=device-width, initial-scale=1'/>
  <link rel='shortcut icon' href='static/favicon.ico'/>
  <script src='https://unpkg.com/jquery@3.5.1/dist/jquery.min.js'></script>
  <link rel='stylesheet' href='https://code.jquery.com/ui/1.12.1/themes/base/jquery-ui.css'/>
  <script src='https://code.jquery.com/ui/1.12.1/jquery-ui.min.js' integrity='sha256-VazP97ZCwtekAsvgPBSUwPFKdrwD3unUfSGVYrahUqU=' crossorigin='anonymous'></script>
  <script src='https://unpkg.com/moment@2.19.3/min/moment-with-locales.min.js'></script>
  <script src='https://unpkg.com/chart.js@2.7.1/dist/Chart.min.js'></script>
  <script src='static/main.js'></script>
  <link rel='stylesheet' href='static/main.css'/>
  "@ + head_extra + "
  <title>"@ + title + "</title>
 </head>
 <body>
 "@ + body + "
 </body>
</html>"@
}

/// Builds a complete HTML page from the parts that differ between pages.
pub fn html_construct(title: &str, head_extra: &str, body: &str) -> (r: String)
    ensures
        r@ == page_text(title@, head_extra@, body@),
{
    let mut page = String::from_str(
        "<!DOCTYPE html>
<html>
 <head>
  <meta charset='utf-8'/>
  <meta http-equiv='X-UA-Compatible' content='IE=edge'/>
  <meta name='viewport' content='height=device-height, width=device-width, initial-scale=1'/>
  <link rel='shortcut icon' href='static/favicon.ico'/>
  <script src='https://unpkg.com/jquery@3.5.1/dist/jquery.min.js'></script>
  <link rel='stylesheet' href='https://code.jquery.com/ui/1.12.1/themes/base/jquery-ui.css'/>
  <script src='https://code.jquery.com/ui/1.12.1/jquery-ui.min.js' integrity='sha256-VazP97ZCwtekAsvgPBSUwPFKdrwD3unUfSGVYrahUqU=' crossorigin='anonymous'></script>
  <script src='https://unpkg.com/moment@2.19.3/min/moment-with-locales.min.js'></script>
  <script src='https://unpkg.com/chart.js@2.7.1/dist/Chart.min.js'></script>
  <script src='static/main.js'></script>
  <link rel='stylesheet' href='static/main.css'/>
  ",
    );
    page.append(head_extra);
    page.append("
  <title>");
    page.append(title);
    page.append("</title>
 </head>
 <body>
 ");
    page.append(body);
    page.append("
 </body>
</html>");
    page
}

} // verus!
