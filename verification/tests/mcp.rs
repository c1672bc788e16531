use synapse::model::transport_for;

#[test]
fn mcp_health_detects_remote_transport_from_url_scheme() {
    // Only http(s):// is treated as remote, everything else is stdio.
    for (input, expect_stdio) in [
        ("npx -y some-server", true),
        ("http://localhost:1234/mcp", false),
        ("https://example.com/mcp", false),
        ("/usr/local/bin/some-mcp-server", true),
    ] {
        let transport = transport_for(input);
        assert_eq!(transport == "stdio", expect_stdio, "input: {input}");
    }
}

#[test]
fn remote_transport_is_streamable_http() {
    assert_eq!(transport_for("https://example.com/mcp"), "streamable-http");
    assert_eq!(transport_for("http:/x"), "stdio");
    assert_eq!(transport_for(""), "stdio");
}
