//! The shell of a page around what the router renders: the head of the
//! document with the scripts that load the application, the script that
//! reloads the page during development, and the response put together.

use vstd::prelude::*;
use vstd::string::*;

verus! {
/// The reload script up to the nonce.
pub const RELOAD_SCRIPT_OPEN: &'static str = r#"
                <script crossorigin="""#;
/// The reload script from the nonce to the patch code.
pub const RELOAD_FUNCTION_OPEN: &'static str = r#">(function () {
                    "#;
/// The reload script from the patch code to the protocol of the socket.
pub const RELOAD_SOCKET_OPEN: &'static str = r#"
                    let host = window.location.hostname;
                    let ws = new WebSocket("#;
/// The reload script between the protocol and the port.
pub const RELOAD_HOST: &'static str = r#" + host + ':"#;
/// The reload script after the port: the path of the socket and its handlers.
pub const RELOAD_HANDLERS: &'static str = r#"/live_reload');
                    ws.onmessage = (ev) => {
                        let msg = JSON.parse(ev.data);
                        if (msg.all) window.location.reload();
                        if (msg.css) {
                            let found = false;
                            document.querySelectorAll("link").forEach((link) => {
                                if (link.getAttribute('href').includes(msg.css)) {
                                    let newHref = '/' + msg.css + '?version=' + new Date().getMilliseconds();
                                    link.setAttribute('href', newHref);
                                    found = true;
                                }
                            });
                            if (!found) console.warn(`CSS hot-reload: Could not find a <link href=/\"${msg.css}\"> element`);
                        };
                        if(msg.view) {
                            patch(msg.view);
                        }
                    };
                    ws.onclose = () => console.warn('Live-reload stopped. Manual reload necessary.');
                })()
                </script>
                "#;
/// The document up to the attributes of `html`.
pub const HEAD_DOCTYPE: &'static str = r#"<!DOCTYPE html>
            <html"#;
/// The head from the end of the `html` tag to the metadata of the page.
pub const HEAD_META: &'static str = r#">
                <head>
                    <meta charset="utf-8"/>
                    <meta name="viewport" content="width=device-width, initial-scale=1"/>
                    "#;
/// The head from the metadata to the package directory of the module preload.
pub const HEAD_MODULE_PRELOAD: &'static str = r#"
                    <link rel="modulepreload" href="/"#;
/// What stands between a directory and a file name.
pub const SLASH: &'static str = r#"/"#;
/// The end of the address of the script.
pub const HEAD_JS_ATTR: &'static str = r#".js""#;
/// The head from the module preload to the package directory of the preload.
pub const HEAD_PRELOAD: &'static str = r#">
                    <link rel="preload" href="/"#;
/// The end of the address of the binary, and how it is fetched.
pub const HEAD_WASM_ATTR: &'static str = r#".wasm" as="fetch" type="application/wasm" crossorigin="""#;
/// The head from the preload to the nonce of the loading script.
pub const HEAD_SCRIPT_OPEN: &'static str = r#">
                    <script type="module""#;
/// The loading script up to the package directory of the import.
pub const HEAD_IDLE: &'static str = r#">
                        function idle(c) {
                            if ("requestIdleCallback" in window) {
                                window.requestIdleCallback(c);
                            } else {
                                c();
                            }
                        }
                        idle(() => {
                            import('/"#;
/// The loading script from the script name to the package directory of the binary.
pub const HEAD_IMPORT: &'static str = r#".js')
                                .then(mod => {
                                    mod.default('/"#;
/// The loading script from the name of the binary to the callback.
pub const HEAD_WASM_THEN: &'static str = r#".wasm').then("#;
/// The end of the loading script.
pub const HEAD_SCRIPT_CLOSE: &'static str = r#");
                                })
                        });
                    </script>
                    "#;
/// The end of the head.
pub const HEAD_CLOSE: &'static str = r#"
                </head>"#;
/// The nonce attribute up to its value.
pub const NONCE_OPEN: &'static str = r#" nonce=""#;
/// The end of the nonce attribute.
pub const NONCE_CLOSE: &'static str = r#"""#;
/// What the name of the binary has after the output name where the build did not fix it.
pub const BG_SUFFIX: &'static str = r#"_bg"#;
/// The callback that hydrates the whole page.
pub const HYDRATE_CALLBACK: &'static str = r#"() => mod.hydrate()"#;
/// The callback that hydrates the page island by island.
pub const ISLANDS_CALLBACK: &'static str = r#"() => {       
            for (let e of document.querySelectorAll("leptos-island")) {
                let l = e.dataset.component;
                mod["_island_" + l](e);
            }
            mod.hydrate();
        }
        "#;
/// The end of the document.
pub const TAIL: &'static str = r#"</body></html>"#;
/// The body tag up to its attributes.
pub const BODY_OPEN: &'static str = r#"<body"#;
/// The end of the body tag.
pub const BODY_CLOSE: &'static str = r#">"#;
/// The plain socket protocol, as script text.
pub const WS_PROTOCOL: &'static str = r#"'ws://'"#;
/// The secure socket protocol, as script text.
pub const WSS_PROTOCOL: &'static str = r#"'wss://'"#;
/// The protocol of the socket that announces a reload.
#[derive(Clone, Copy, Debug, PartialEq, Eq, Structural)]
pub enum ReloadWSProtocol {
    WS,
    WSS,
}

/// The decimal digit for `d`.
pub open spec fn digit(d: nat) -> char {
    if d == 0 {
        '0'
    } else if d == 1 {
        '1'
    } else if d == 2 {
        '2'
    } else if d == 3 {
        '3'
    } else if d == 4 {
        '4'
    } else if d == 5 {
        '5'
    } else if d == 6 {
        '6'
    } else if d == 7 {
        '7'
    } else if d == 8 {
        '8'
    } else {
        '9'
    }
}

/// The decimal numeral of `n`, without leading zeros.
pub open spec fn decimal(n: nat) -> Seq<char>
    decreases n,
{
    if n < 10 {
        seq![digit(n)]
    } else {
        decimal(n / 10) + seq![digit(n % 10)]
    }
}

/// The protocol as it stands in the script.
pub open spec fn protocol_text(protocol: ReloadWSProtocol) -> Seq<char> {
    match protocol {
        ReloadWSProtocol::WS => WS_PROTOCOL@,
        ReloadWSProtocol::WSS => WSS_PROTOCOL@,
    }
}

/// The script that reloads the page when the development server says so.
pub open spec fn reload_script(
    nonce_str: Seq<char>,
    protocol: ReloadWSProtocol,
    port: nat,
    hot_reload_js: Seq<char>,
) -> Seq<char> {
    RELOAD_SCRIPT_OPEN@ +
        nonce_str +
        RELOAD_FUNCTION_OPEN@ +
        hot_reload_js +
        RELOAD_SOCKET_OPEN@ +
        protocol_text(protocol) +
        RELOAD_HOST@ +
        decimal(port) +
        RELOAD_HANDLERS@
}

/// The nonce as an attribute; nothing where there is no nonce.
pub open spec fn nonce_attr(nonce: Option<Seq<char>>) -> Seq<char> {
    match nonce {
        Some(n) => NONCE_OPEN@ + n + NONCE_CLOSE@,
        None => Seq::empty(),
    }
}

/// The name of the binary: the output name, with a suffix where the build
/// did not fix the name.
pub open spec fn wasm_name(output_name: Seq<char>, add_bg: bool) -> Seq<char> {
    if add_bg {
        output_name + BG_SUFFIX@
    } else {
        output_name
    }
}

/// The callback that runs when the binary is loaded.
pub open spec fn import_callback(islands: bool) -> Seq<char> {
    if islands {
        ISLANDS_CALLBACK@
    } else {
        HYDRATE_CALLBACK@
    }
}

/// The document from its start to the end of its head.
pub open spec fn head_markup(
    pkg_path: Seq<char>,
    output_name: Seq<char>,
    add_bg: bool,
    nonce: Option<Seq<char>>,
    html_metadata: Seq<char>,
    head: Seq<char>,
    islands: bool,
    autoreload: Seq<char>,
) -> Seq<char> {
    HEAD_DOCTYPE@ +
        html_metadata +
        HEAD_META@ +
        head +
        HEAD_MODULE_PRELOAD@ +
        pkg_path +
        SLASH@ +
        output_name +
        HEAD_JS_ATTR@ +
        nonce_attr(nonce) +
        HEAD_PRELOAD@ +
        pkg_path +
        SLASH@ +
        wasm_name(output_name, add_bg) +
        HEAD_WASM_ATTR@ +
        nonce_attr(nonce) +
        HEAD_SCRIPT_OPEN@ +
        nonce_attr(nonce) +
        HEAD_IDLE@ +
        pkg_path +
        SLASH@ +
        output_name +
        HEAD_IMPORT@ +
        pkg_path +
        SLASH@ +
        wasm_name(output_name, add_bg) +
        HEAD_WASM_THEN@ +
        import_callback(islands) +
        HEAD_SCRIPT_CLOSE@ +
        autoreload +
        HEAD_CLOSE@
}

/// The texts of `chunks`, one after the other.
pub open spec fn joined(chunks: Seq<String>) -> Seq<char>
    decreases chunks.len(),
{
    if chunks.len() == 0 {
        Seq::empty()
    } else {
        joined(chunks.drop_last()) + chunks.last()@
    }
}

/// The whole document: the head, the body tag with its attributes, what
/// was rendered, and the end.
pub open spec fn document(head: Seq<char>, body_meta: Seq<char>, chunks: Seq<String>, tail: Seq<char>) -> Seq<
    char,
> {
    head + BODY_OPEN@ + body_meta + BODY_CLOSE@ + joined(chunks) + tail
}

/// The decimal digit for `d`, as text.
fn digit_str(d: u32) -> (s: &'static str)
    requires
        d < 10,
    ensures
        s@ == seq![digit(d as nat)],
{
    proof {
        reveal_strlit("0");
        reveal_strlit("1");
        reveal_strlit("2");
        reveal_strlit("3");
        reveal_strlit("4");
        reveal_strlit("5");
        reveal_strlit("6");
        reveal_strlit("7");
        reveal_strlit("8");
        reveal_strlit("9");
    }
    let s = if d == 0 {
        "0"
    } else if d == 1 {
        "1"
    } else if d == 2 {
        "2"
    } else if d == 3 {
        "3"
    } else if d == 4 {
        "4"
    } else if d == 5 {
        "5"
    } else if d == 6 {
        "6"
    } else if d == 7 {
        "7"
    } else if d == 8 {
        "8"
    } else {
        "9"
    };
    assert(s@ =~= seq![digit(d as nat)]);
    s
}

/// The decimal numeral of `n`.
pub fn decimal_string(n: u32) -> (s: String)
    ensures
        s@ == decimal(n as nat),
{
    let mut rest: u32 = n;
    let mut out = String::new();
    while rest >= 10
        invariant
            decimal(n as nat) == decimal(rest as nat) + out@,
        decreases rest,
    {
        let low = String::from_str(digit_str(rest % 10));
        out = low.concat(out.as_str());
        proof {
            assert(decimal(n as nat) =~= decimal((rest / 10) as nat) + out@);
        }
        rest = rest / 10;
    }
    let high = String::from_str(digit_str(rest));
    let done = high.concat(out.as_str());
    done
}

/// The protocol as it stands in the script.
fn protocol_str(protocol: ReloadWSProtocol) -> (s: &'static str)
    ensures
        s@ == protocol_text(protocol),
{
    match protocol {
        ReloadWSProtocol::WS => WS_PROTOCOL,
        ReloadWSProtocol::WSS => WSS_PROTOCOL,
    }
}

/// The script that reloads the page during development, for the port that
/// the browser reaches: the external port where there is one. Without a
/// watching development server there is no script.
pub fn autoreload(
    nonce_str: &str,
    reload_port: u32,
    reload_external_port: Option<u32>,
    protocol: ReloadWSProtocol,
    watch: bool,
    hot_reload_js: &str,
) -> (script: String)
    ensures
        script@ == if watch {
            reload_script(
                nonce_str@,
                protocol,
                match reload_external_port {
                    Some(port) => port as nat,
                    None => reload_port as nat,
                },
                hot_reload_js@,
            )
        } else {
            Seq::<char>::empty()
        },
{
    if !watch {
        return String::new();
    }
    let port = match reload_external_port {
        Some(val) => val,
        None => reload_port,
    };
    let port_text = decimal_string(port);
    let mut out = String::from_str(RELOAD_SCRIPT_OPEN);
    out.append(nonce_str);
    out.append(RELOAD_FUNCTION_OPEN);
    out.append(hot_reload_js);
    out.append(RELOAD_SOCKET_OPEN);
    out.append(protocol_str(protocol));
    out.append(RELOAD_HOST);
    out.append(port_text.as_str());
    out.append(RELOAD_HANDLERS);
    out
}

/// The document from its start to the end of its head, and the end of the
/// document. The head names the script and the binary of the application in
/// the package directory, each tag with the nonce where there is one.
pub fn html_parts_separated(
    pkg_path: &str,
    output_name: &str,
    add_bg: bool,
    nonce: Option<&str>,
    html_metadata: &str,
    head: &str,
    islands: bool,
    autoreload: &str,
) -> (parts: (String, &'static str))
    ensures
        parts.0@ == head_markup(
            pkg_path@,
            output_name@,
            add_bg,
            match nonce {
                Some(n) => Some(n@),
                None => None,
            },
            html_metadata@,
            head@,
            islands,
            autoreload@,
        ),
        parts.1@ == TAIL@,
{
    let nonce_text = match nonce {
        Some(n) => String::from_str(NONCE_OPEN).concat(n).concat(NONCE_CLOSE),
        None => String::new(),
    };
    let mut wasm_output_name = String::from_str(output_name);
    if add_bg {
        wasm_output_name.append(BG_SUFFIX);
    }
    let callback = if islands {
        ISLANDS_CALLBACK
    } else {
        HYDRATE_CALLBACK
    };
    let mut out = String::from_str(HEAD_DOCTYPE);
    out.append(html_metadata);
    out.append(HEAD_META);
    out.append(head);
    out.append(HEAD_MODULE_PRELOAD);
    out.append(pkg_path);
    out.append(SLASH);
    out.append(output_name);
    out.append(HEAD_JS_ATTR);
    out.append(nonce_text.as_str());
    out.append(HEAD_PRELOAD);
    out.append(pkg_path);
    out.append(SLASH);
    out.append(wasm_output_name.as_str());
    out.append(HEAD_WASM_ATTR);
    out.append(nonce_text.as_str());
    out.append(HEAD_SCRIPT_OPEN);
    out.append(nonce_text.as_str());
    out.append(HEAD_IDLE);
    out.append(pkg_path);
    out.append(SLASH);
    out.append(output_name);
    out.append(HEAD_IMPORT);
    out.append(pkg_path);
    out.append(SLASH);
    out.append(wasm_output_name.as_str());
    out.append(HEAD_WASM_THEN);
    out.append(callback);
    out.append(HEAD_SCRIPT_CLOSE);
    out.append(autoreload);
    out.append(HEAD_CLOSE);
    (out, TAIL)
}

/// The response to a request that was rendered as a whole: the head, the
/// body with what the chunks of the stream hold, in their order, and the
/// end of the document.
pub fn build_async_response(head: &str, body_meta: &str, chunks: &Vec<String>, tail: &str) -> (response: String)
    ensures
        response@ == document(head@, body_meta@, chunks@, tail@),
{
    let mut buf = String::new();
    let mut i: usize = 0;
    proof {
        assert(chunks@.take(0).len() == 0);
        assert(buf@ =~= joined(chunks@.take(0)));
    }
    while i < chunks.len()
        invariant
            i <= chunks@.len(),
            buf@ == joined(chunks@.take(i as int)),
        decreases chunks@.len() - i,
    {
        proof {
            assert(chunks@.take(i + 1).drop_last() =~= chunks@.take(i as int));
            assert(chunks@.take(i + 1).last() == chunks@[i as int]);
        }
        buf.append(chunks[i].as_str());
        i += 1;
    }
    proof {
        assert(chunks@.take(i as int) =~= chunks@);
    }
    let mut out = String::from_str(head);
    out.append(BODY_OPEN);
    out.append(body_meta);
    out.append(BODY_CLOSE);
    out.append(buf.as_str());
    out.append(tail);
    out
}

} // verus!
