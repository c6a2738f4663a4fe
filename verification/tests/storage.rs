use tts_podcast::storage::{audio_key, image_key, object_key, public_url};

#[test]
fn storage_audio_key_is_content_addressed() {
    // SHA-256("hello") starts 2cf24dba5fb0a30e.
    assert_eq!(audio_key("ep1", b"hello"), "episodes/ep1/2cf24dba5fb0a30e.mp3");
    // SHA-256("") starts e3b0c44298fc1c14.
    assert_eq!(audio_key("ep2", b""), "episodes/ep2/e3b0c44298fc1c14.mp3");
}

#[test]
fn storage_image_key_and_public_url() {
    assert_eq!(image_key("abc"), "episodes/abc/cover.jpg");
    assert_eq!(
        public_url("podcasts", "episodes/abc/cover.jpg"),
        "https://podcasts.t3.tigrisfiles.io/episodes/abc/cover.jpg"
    );
}

#[test]
fn storage_object_key_of_each_host() {
    let key = "episodes/e/0011223344556677.mp3";
    assert_eq!(object_key("b", &public_url("b", key)), key);
    assert_eq!(object_key("b", &format!("https://b.t3.storage.dev/{key}")), key);
    assert_eq!(object_key("b", &format!("https://b.fly.storage.tigris.dev/{key}")), key);
    assert_eq!(object_key("b", "https://elsewhere.example/x"), "https://elsewhere.example/x");
    assert_eq!(object_key("b", key), key);
}

#[test]
fn storage_hex_encode_lowercase_pairs() {
    assert_eq!(tts_podcast::storage::hex_encode(&[0x00, 0x0f, 0xab, 0xff]), "000fabff");
    assert_eq!(tts_podcast::storage::hex_encode(&[]), "");
    let bytes: Vec<u8> = (0u8..=255).collect();
    assert_eq!(tts_podcast::storage::hex_encode(&bytes), hex::encode(&bytes));
}
