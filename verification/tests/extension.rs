use hexpeek::extension::{binary_command, checked_script_path, node_server_args, node_server_command};

#[test]
fn binary_from_settings_or_path() {
    assert_eq!(
        binary_command("bitpeek", Some("/usr/bin/bitpeek".to_string()), None),
        Ok("/usr/bin/bitpeek".to_string())
    );
    assert_eq!(
        binary_command("bitpeek", Some("/usr/bin/bitpeek".to_string()), Some("/opt/bp".to_string())),
        Ok("/opt/bp".to_string())
    );
    assert_eq!(binary_command("bitpeek", None, Some("/opt/bp".to_string())), Ok("/opt/bp".to_string()));
    assert_eq!(binary_command("bitpeek", None, None), Err("bitpeek not found!".to_string()));
}

#[test]
fn bundled_script() {
    assert_eq!(checked_script_path("/ext/server.js", Ok(true)), Ok("/ext/server.js".to_string()));
    assert_eq!(
        checked_script_path("/ext/server.js", Ok(false)),
        Err("/ext/server.js not found".to_string())
    );
    assert_eq!(
        checked_script_path("/ext/server.js", Err("No such file or directory".to_string())),
        Err("No such file or directory".to_string())
    );
}

#[test]
fn node_command() {
    assert_eq!(node_server_args("/ext/server.js".to_string()), vec!["/ext/server.js", "--stdio"]);
    assert_eq!(
        node_server_command(Ok("/bin/node".to_string()), Ok("/ext/server.js".to_string())),
        Ok(("/bin/node".to_string(), vec!["/ext/server.js".to_string(), "--stdio".to_string()]))
    );
    assert_eq!(
        node_server_command(Err("no node".to_string()), Err("no script".to_string())),
        Err("no node".to_string())
    );
    assert_eq!(
        node_server_command(Ok("/bin/node".to_string()), Err("no script".to_string())),
        Err("no script".to_string())
    );
}
