use nested_router::shell::{
    autoreload, build_async_response, decimal_string, html_parts_separated, ReloadWSProtocol,
};

fn expected_reload(nonce_str: &str, protocol: &str, reload_port: u32, js: &str) -> String {
    format!(
            r#"
                <script crossorigin=""{nonce_str}>(function () {{
                    {}
                    let host = window.location.hostname;
                    let ws = new WebSocket({protocol} + host + ':{reload_port}/live_reload');
                    ws.onmessage = (ev) => {{
                        let msg = JSON.parse(ev.data);
                        if (msg.all) window.location.reload();
                        if (msg.css) {{
                            let found = false;
                            document.querySelectorAll("link").forEach((link) => {{
                                if (link.getAttribute('href').includes(msg.css)) {{
                                    let newHref = '/' + msg.css + '?version=' + new Date().getMilliseconds();
                                    link.setAttribute('href', newHref);
                                    found = true;
                                }}
                            }});
                            if (!found) console.warn(`CSS hot-reload: Could not find a <link href=/\"${{msg.css}}\"> element`);
                        }};
                        if(msg.view) {{
                            patch(msg.view);
                        }}
                    }};
                    ws.onclose = () => console.warn('Live-reload stopped. Manual reload necessary.');
                }})()
                </script>
                "#,
            js
    )
}

fn expected_head(
    pkg_path: &str,
    output_name: &str,
    wasm_output_name: &str,
    nonce: &str,
    html_metadata: &str,
    head: &str,
    import_callback: &str,
    leptos_autoreload: &str,
) -> String {
    format!(
        r#"<!DOCTYPE html>
            <html{html_metadata}>
                <head>
                    <meta charset="utf-8"/>
                    <meta name="viewport" content="width=device-width, initial-scale=1"/>
                    {head}
                    <link rel="modulepreload" href="/{pkg_path}/{output_name}.js"{nonce}>
                    <link rel="preload" href="/{pkg_path}/{wasm_output_name}.wasm" as="fetch" type="application/wasm" crossorigin=""{nonce}>
                    <script type="module"{nonce}>
                        function idle(c) {{
                            if ("requestIdleCallback" in window) {{
                                window.requestIdleCallback(c);
                            }} else {{
                                c();
                            }}
                        }}
                        idle(() => {{
                            import('/{pkg_path}/{output_name}.js')
                                .then(mod => {{
                                    mod.default('/{pkg_path}/{wasm_output_name}.wasm').then({import_callback});
                                }})
                        }});
                    </script>
                    {leptos_autoreload}
                </head>"#
    )
}

const ISLANDS: &str = r#"() => {       
            for (let e of document.querySelectorAll("leptos-island")) {
                let l = e.dataset.component;
                mod["_island_" + l](e);
            }
            mod.hydrate();
        }
        "#;

#[test]
fn numerals_have_no_leading_zeros() {
    assert_eq!(decimal_string(0), "0");
    assert_eq!(decimal_string(7), "7");
    assert_eq!(decimal_string(10), "10");
    assert_eq!(decimal_string(3001), "3001");
    assert_eq!(decimal_string(1234567890), "1234567890");
    assert_eq!(decimal_string(u32::MAX), "4294967295");
}

#[test]
fn no_reload_script_without_a_watching_server() {
    assert_eq!(autoreload(" nonce=\"n\"", 3001, None, ReloadWSProtocol::WS, false, "patch()"), "");
}

#[test]
fn reload_script_names_protocol_and_port() {
    assert_eq!(
        autoreload(" nonce=\"n\"", 3001, None, ReloadWSProtocol::WS, true, "function patch() {}"),
        expected_reload(" nonce=\"n\"", "'ws://'", 3001, "function patch() {}")
    );
    assert_eq!(
        autoreload("", 3001, Some(443), ReloadWSProtocol::WSS, true, ""),
        expected_reload("", "'wss://'", 443, "")
    );
    let script = autoreload("", 3001, Some(443), ReloadWSProtocol::WSS, true, "");
    assert!(script.contains("new WebSocket('wss://' + host + ':443/live_reload');"));
}

#[test]
fn head_names_script_and_binary() {
    let (head, tail) = html_parts_separated(
        "pkg",
        "app",
        true,
        Some("abc"),
        " lang=\"en\"",
        "<title>t</title>",
        false,
        "<script>r</script>",
    );
    assert_eq!(tail, "</body></html>");
    assert_eq!(
        head,
        expected_head(
            "pkg",
            "app",
            "app_bg",
            " nonce=\"abc\"",
            " lang=\"en\"",
            "<title>t</title>",
            "() => mod.hydrate()",
            "<script>r</script>"
        )
    );
    assert!(head.contains("<link rel=\"modulepreload\" href=\"/pkg/app.js\" nonce=\"abc\">"));
    assert!(head.contains("mod.default('/pkg/app_bg.wasm').then(() => mod.hydrate());"));
}

#[test]
fn head_without_nonce_with_islands_and_fixed_name() {
    let (head, _) = html_parts_separated("site/pkg", "out", false, None, "", "", true, "");
    assert_eq!(head, expected_head("site/pkg", "out", "out", "", "", "", ISLANDS, ""));
    assert!(head.starts_with("<!DOCTYPE html>"));
    assert!(head.ends_with("</head>"));
    assert!(head.contains("href=\"/site/pkg/out.wasm\""));
}

#[test]
fn response_is_put_together_in_order() {
    let chunks = vec!["<p>a</p>".to_string(), String::new(), "<p>b</p>".to_string()];
    assert_eq!(
        build_async_response("<head></head>", " class=\"dark\"", &chunks, "</body></html>"),
        "<head></head><body class=\"dark\"><p>a</p><p>b</p></body></html>"
    );
    assert_eq!(build_async_response("", "", &Vec::new(), ""), "<body>");
}
