use checkdigits::steg::{embed, extract, xorcise};

#[test]
pub fn steganographic_encryption() {
    let carrier = "Hello There!";
    let payload = "General Kenobi";
    let key = "simple-key";
    let message = embed(carrier, payload, key);
    let (mes1, mes2) = extract(&message, key);
    assert_eq!(mes1, "Hello There!");
    assert_eq!(mes2, "General Kenobi");

    let carrier = "How are you today? I had a very busy day! I travelled 400 miles returning to London. It was windy and rainy. The traffic was bad too. I managed to finish my job, ref No 3789. But I am really tired. If possible, can we cancel tonight’s meeting?";
    let payload = "meet@9";
    let key = "simple-key";
    let message = embed(carrier, payload, key);
    let (mes1, mes2) = extract(&message, key);
    assert_eq!(mes1, carrier);
    assert_eq!(mes2, payload);
}

#[test]
pub fn encode() {
    let mut input = String::from("General Kenobi");
    let mut key = String::from("simple_key");
    let mut fit = xorcise(&input.as_bytes(), &key.as_bytes());
    let mut unfit = xorcise(&fit, &key.as_bytes());
    assert_eq!(String::from_utf8(unfit).unwrap(), input);

    input = String::from("Hello my name is Tom how are you doing?");
    key = String::from("seolBFHEOJFBqeofhbqefuobfoiqnfkolpqwndfioqwdbn");
    fit = xorcise(&input.as_bytes(), &key.as_bytes());
    unfit = xorcise(&fit, &key.as_bytes());
    assert_eq!(String::from_utf8_lossy(&unfit), input);

    input = String::from("안녕하세요");
    key = String::from("blahblahblah");
    fit = xorcise(&input.as_bytes(), &key.as_bytes());
    unfit = xorcise(&fit, &key.as_bytes());
    assert_eq!(String::from_utf8_lossy(&unfit), input);
}

#[test]
pub fn keystream_is_not_the_key() {
    // If the keystream were the key itself, enciphering the key would
    // yield all zeros.
    let key = b"simple-key";
    let fit = xorcise(key, key);
    assert_ne!(fit, vec![0u8; key.len()]);
}
