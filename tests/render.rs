use docker_image::DockerImage;

#[test]
fn test_display_trivial_name() {
    let image = DockerImage {
        registry: None,
        name: "nginx".to_string(),
        tag: None,
        digest: None,
    };

    assert_eq!(image.to_string(), "nginx");
}

#[test]
fn test_display_name_with_tag() {
    let image = DockerImage {
        registry: None,
        name: "nginx".to_string(),
        tag: Some("latest".to_string()),
        digest: None,
    };

    assert_eq!(image.to_string(), "nginx:latest");
}

#[test]
fn test_display_name_with_digest() {
    let image = DockerImage {
        registry: None,
        name: "ubuntu".to_string(),
        tag: None,
        digest: Some(
            "sha256:deadbeef1234567890abcdef1234567890abcdef1234567890abcdef1234".to_string(),
        ),
    };

    assert_eq!(image.to_string(), "ubuntu@sha256:deadbeef1234567890abcdef1234567890abcdef1234567890abcdef1234");
}

#[test]
fn test_display_name_with_tag_and_digest() {
    let image = DockerImage {
        registry: None,
        name: "ubuntu".to_string(),
        tag: Some("latest".to_string()),
        digest: Some(
            "sha256:deadbeef1234567890abcdef1234567890abcdef1234567890abcdef1234".to_string(),
        ),
    };

    assert_eq!(image.to_string(), "ubuntu:latest@sha256:deadbeef1234567890abcdef1234567890abcdef1234567890abcdef1234");
}

#[test]
fn test_display_registry_and_name() {
    let image = DockerImage {
        registry: Some("docker.io".to_string()),
        name: "library/nginx".to_string(),
        tag: None,
        digest: None,
    };

    assert_eq!(image.to_string(), "docker.io/library/nginx");
}

#[test]
fn test_display_registry_name_with_tag() {
    let image = DockerImage {
        registry: Some("docker.io".to_string()),
        name: "library/nginx".to_string(),
        tag: Some("latest".to_string()),
        digest: None,
    };

    assert_eq!(image.to_string(), "docker.io/library/nginx:latest");
}

#[test]
fn test_display_full_reference() {
    let image = DockerImage {
        registry: Some("my-registry.local:5000".to_string()),
        name: "library/image-name".to_string(),
        tag: Some("v1.0.0".to_string()),
        digest: Some(
            "sha256:deadbeef1234567890abcdef1234567890abcdef1234567890abcdef1234".to_string(),
        ),
    };

    assert_eq!(image.to_string(), "my-registry.local:5000/library/image-name:v1.0.0@sha256:deadbeef1234567890abcdef1234567890abcdef1234567890abcdef1234");
}
