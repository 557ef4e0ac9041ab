use docker_image::{DockerImage, DockerImageError};

const HEX64: &str = "45b23dee08af5e43a7fea6c4cf9c25ccf269ee113168c19722f87876677c5cb2";

fn image(registry: Option<&str>, name: &str, tag: Option<&str>, digest: Option<&str>) -> DockerImage {
    DockerImage::new(
        registry.map(|s| s.to_string()),
        name.to_string(),
        tag.map(|s| s.to_string()),
        digest.map(|s| s.to_string()),
    )
}

fn accepted() -> Vec<String> {
    vec![
        "nginx".to_string(),
        "nginx:latest".to_string(),
        "docker.io/nginx".to_string(),
        "ghcr.io/nginx/nginx".to_string(),
        "library/nginx".to_string(),
        "localhost/x".to_string(),
        "a.b/c".to_string(),
        format!("ubuntu@sha256:{}", HEX64),
        format!("my-registry.local:5000/library/image-name:v1.0.0@sha256:{}", HEX64),
    ]
}

#[test]
fn round_trip_renders_the_input() {
    for s in accepted() {
        let r = DockerImage::parse(&s).unwrap();
        assert_eq!(r.to_string(), s);
    }
}

#[test]
fn reparse_of_rendering_is_equal() {
    for s in accepted() {
        let r = DockerImage::parse(&s).unwrap();
        assert_eq!(DockerImage::parse(&r.to_string()), Ok(r));
    }
}

#[test]
fn repeated_parses_agree() {
    for s in accepted().into_iter().chain(vec!["".to_string(), "nginx::x".to_string()]) {
        assert_eq!(DockerImage::parse(&s), DockerImage::parse(&s));
    }
}

#[test]
fn equality_is_fieldwise() {
    let a = image(Some("docker.io"), "nginx", Some("latest"), None);
    assert_eq!(a, image(Some("docker.io"), "nginx", Some("latest"), None));
    assert_ne!(a, image(None, "nginx", Some("latest"), None));
    assert_ne!(a, image(Some("docker.io"), "nginx2", Some("latest"), None));
    assert_ne!(a, image(Some("docker.io"), "nginx", None, None));
    assert_ne!(a, image(Some("docker.io"), "nginx", Some("latest"), Some("sha256:00")));
}

#[test]
fn render_name_only() {
    assert_eq!(image(None, "nginx", None, None).to_string(), "nginx");
}

#[test]
fn render_registry_and_name() {
    assert_eq!(image(Some("docker.io"), "library/nginx", None, None).to_string(), "docker.io/library/nginx");
}

#[test]
fn localhost_is_a_name_segment() {
    assert_eq!(DockerImage::parse("localhost/image"), Ok(image(None, "localhost/image", None, None)));
}

#[test]
fn single_letter_top_label_is_not_a_registry() {
    assert_eq!(DockerImage::parse("a.b/c"), Ok(image(None, "a.b/c", None, None)));
    assert_eq!(DockerImage::parse("a.bc/c"), Ok(image(Some("a.bc"), "c", None, None)));
}

#[test]
fn numeric_host_is_not_a_registry() {
    assert_eq!(DockerImage::parse("1.2.3.4/x"), Ok(image(None, "1.2.3.4/x", None, None)));
    assert_eq!(DockerImage::parse("1.2.3.4:5000/x"), Err(DockerImageError::InvalidFormat));
}

#[test]
fn registry_without_dot_and_port_is_rejected() {
    assert_eq!(DockerImage::parse("localhost:5000/x"), Err(DockerImageError::InvalidFormat));
}

#[test]
fn uppercase_only_in_tag_and_hex() {
    assert_eq!(DockerImage::parse("Nginx"), Err(DockerImageError::InvalidFormat));
    assert_eq!(DockerImage::parse("Docker.io/nginx"), Err(DockerImageError::InvalidFormat));
    assert_eq!(DockerImage::parse("nginx:LaTeSt"), Ok(image(None, "nginx", Some("LaTeSt"), None)));
    let upper = format!("sha256:{}", HEX64.to_uppercase());
    assert_eq!(
        DockerImage::parse(&format!("nginx@{}", upper)),
        Ok(image(None, "nginx", None, Some(&upper)))
    );
    assert_eq!(
        DockerImage::parse(&format!("nginx@SHA256:{}", HEX64)),
        Err(DockerImageError::InvalidFormat)
    );
}

#[test]
fn digest_hex_must_have_sixty_four_digits() {
    assert_eq!(DockerImage::parse(&format!("nginx@sha256:{}", &HEX64[1..])), Err(DockerImageError::InvalidFormat));
    assert_eq!(DockerImage::parse(&format!("nginx@sha256:{}0", HEX64)), Err(DockerImageError::InvalidFormat));
    assert_eq!(DockerImage::parse(&format!("nginx@:{}", HEX64)), Err(DockerImageError::InvalidFormat));
}

#[test]
fn separators_must_sit_between_alphanumerics() {
    for s in ["nginx/", "/nginx", "a..b", "a/-b", "-a", "a_", "a//b", "docker.io/", "nginx:", "nginx@"] {
        assert_eq!(DockerImage::parse(s), Err(DockerImageError::InvalidFormat), "{}", s);
    }
    assert_eq!(DockerImage::parse("a_b.c-d/e"), Ok(image(None, "a_b.c-d/e", None, None)));
}

#[test]
fn surrounding_whitespace_is_rejected() {
    assert_eq!(DockerImage::parse(" nginx"), Err(DockerImageError::InvalidFormat));
    assert_eq!(DockerImage::parse("nginx "), Err(DockerImageError::InvalidFormat));
}

#[test]
fn empty_input_is_rejected() {
    assert_eq!(DockerImage::parse(""), Err(DockerImageError::InvalidFormat));
}

#[test]
fn registry_with_port_tag_and_digest() {
    let s = format!("reg.example.com:443/a/b/c:t_1@sha256:{}", HEX64);
    assert_eq!(
        DockerImage::parse(&s),
        Ok(image(Some("reg.example.com:443"), "a/b/c", Some("t_1"), Some(&format!("sha256:{}", HEX64))))
    );
}

#[test]
fn from_str_matches_parse() {
    let r: Result<DockerImage, DockerImageError> = "docker.io/nginx:1".parse();
    assert_eq!(r, DockerImage::parse("docker.io/nginx:1"));
    assert_eq!(r.unwrap().registry, Some("docker.io".to_string()));
}

#[test]
fn error_message() {
    assert_eq!(DockerImageError::InvalidFormat.to_string(), "Invalid Docker image format");
}
