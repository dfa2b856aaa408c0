use scram::message::unescape;
use scram::{ClientFinal, ClientFirst};

#[test]
fn a_client_first_message_yields_its_header_its_bare_part_and_the_username() {
    let read = ClientFirst::parse("n,,n=user,r=rOprNGfwEbeRWgbNEkqO").expect("read");
    assert_eq!(read.gs2_header, "n,,");
    assert_eq!(read.bare, "n=user,r=rOprNGfwEbeRWgbNEkqO");
    assert_eq!(read.username, "user");
    assert_eq!(read.nonce, "rOprNGfwEbeRWgbNEkqO");

    let escaped = ClientFirst::parse("y,a=admin,n=a=2Cb=3Dc,r=abc,x=ext").expect("read");
    assert_eq!(escaped.gs2_header, "y,a=admin,");
    assert_eq!(escaped.username, "a,b=c");
    assert_eq!(escaped.nonce, "abc");
}

#[test]
fn what_this_node_does_not_offer_is_refused_by_name() {
    let refused = |message: &str| ClientFirst::parse(message).expect_err("refused").message;
    assert!(refused("p=tls-unique,,n=user,r=abc").contains("channel binding"));
    assert!(refused("n,,m=ext,n=user,r=abc").contains("mandatory"));
    assert!(refused("n=user,r=abc").contains("channel-binding flag"));
    assert!(refused("n,,r=abc").contains("no 'n='"));
    assert!(refused("n,,n=user").contains("no 'r='"));
    assert!(refused("n,,n=us=er,r=abc").contains("escapes nothing"));
    assert!(refused("n,,n=,r=abc").contains("empty"));
}

#[test]
fn a_client_final_message_yields_what_the_proof_was_computed_over() {
    let read = ClientFinal::parse("c=biws,r=abcdef,p=AQID").expect("read");
    assert_eq!(read.binding, b"n,,");
    assert_eq!(read.nonce, "abcdef");
    assert_eq!(read.without_proof, "c=biws,r=abcdef");
    assert_eq!(read.proof, [1, 2, 3]);

    let refused = |message: &str| ClientFinal::parse(message).expect_err("refused").message;
    assert!(refused("c=biws,r=abcdef").contains("does not end with a proof"));
    assert!(refused("r=abcdef,p=AQID").contains("no 'c='"));
    assert!(refused("c=biws,r=abcdef,p=***").contains("not base64"));
}

#[test]
fn each_fault_of_a_client_first_message_is_told_in_full() {
    let told = |message: &str| ClientFirst::parse(message).expect_err("told").message;
    assert_eq!(
        told("p=tls-unique,,n=user,r=abc"),
        "the SCRAM client requires channel binding and this node offers none"
    );
    let flag = "the SCRAM client-first-message does not open with a channel-binding flag";
    assert_eq!(told(""), flag);
    assert_eq!(told("p,,n=user,r=abc"), flag);
    assert_eq!(told("nn,,n=user,r=abc"), flag);
    assert_eq!(told("N,,n=user,r=abc"), flag);
    let header = "the SCRAM client-first-message has no GS2 header";
    assert_eq!(told("n"), header);
    assert_eq!(told("y,"), header);
    assert_eq!(told("n,a=admin"), header);
    assert_eq!(
        told("n,,m="),
        "the SCRAM client makes an extension mandatory and this node reads none"
    );
    assert_eq!(told("n,,"), "the SCRAM client-first-message has no 'n=' here");
    assert_eq!(told("n,,n"), "the SCRAM client-first-message has no 'n=' here");
    assert_eq!(
        told("n,,n=user,s=1,r=abc"),
        "the SCRAM client-first-message has no 'r=' here"
    );
    let escape = "the SCRAM username has an '=' that escapes nothing";
    assert_eq!(told("n,,n=a=2,r=abc"), escape);
    assert_eq!(told("n,,n=a=,r=abc"), escape);
    assert_eq!(told("n,,n=a=2c,r=abc"), escape);
    assert_eq!(told("n,,n=a=2\u{e9},r=abc"), escape);
    // The name is read before the nonce is looked for.
    assert_eq!(told("n,,n=a=2"), escape);
    let empty = "the SCRAM client-first-message has an empty username or nonce";
    assert_eq!(told("n,,n=,r=abc"), empty);
    assert_eq!(told("n,,n=user,r="), empty);
}

#[test]
fn each_fault_of_a_client_final_message_is_told_in_full() {
    let told = |message: &str| ClientFinal::parse(message).expect_err("told").message;
    assert_eq!(
        told("p=AQID"),
        "the SCRAM client-final-message does not end with a proof"
    );
    assert_eq!(told(",p=AQID"), "the SCRAM client-final-message has no 'c=' here");
    assert_eq!(
        told("c=biws,p=AQID"),
        "the SCRAM client-final-message has no 'r=' here"
    );
    assert_eq!(
        told("c=biws,x=1,r=abc,p=AQID"),
        "the SCRAM client-final-message has no 'r=' here"
    );
    // The binding is decoded before the proof.
    assert_eq!(
        told("c=*,r=abc,p=*"),
        "the SCRAM channel binding is not base64"
    );
    assert_eq!(told("c=biws,r=abc,p=*"), "the SCRAM proof is not base64");
}

#[test]
fn names_beyond_ascii_are_read_as_sent() {
    let read = ClientFirst::parse("n,a=\u{e9},n=\u{1f511}=3D\u{e9},r=\u{fc}").expect("read");
    assert_eq!(read.gs2_header, "n,a=\u{e9},");
    assert_eq!(read.bare, "n=\u{1f511}=3D\u{e9},r=\u{fc}");
    assert_eq!(read.username, "\u{1f511}=\u{e9}");
    assert_eq!(read.nonce, "\u{fc}");
}

#[test]
fn a_read_first_message_is_its_header_and_its_bare_part() {
    for sent in ["n,,n=user,r=abc", "y,a=admin,n=a=2Cb,r=abc,x=1,y=2"] {
        let read = ClientFirst::parse(sent).expect("read");
        assert_eq!(format!("{}{}", read.gs2_header, read.bare), sent);
    }
    assert_eq!(
        ClientFirst::parse("n,anything,n=u,r=,").expect_err("empty").message,
        "the SCRAM client-first-message has an empty username or nonce"
    );
}

#[test]
fn the_last_proof_of_a_final_message_counts() {
    let read = ClientFinal::parse("c=biws,r=abc,p=AQID,p=BAUG").expect("read");
    assert_eq!(read.without_proof, "c=biws,r=abc,p=AQID");
    assert_eq!(read.proof, [4, 5, 6]);
    let empty = ClientFinal::parse("c=,r=,p=").expect("read");
    assert_eq!(empty.binding, b"");
    assert_eq!(empty.nonce, "");
    assert_eq!(empty.proof, b"");
}

#[test]
fn fields_are_split_before_they_are_decoded() {
    let fields = ClientFinal::split("c=biws,r=abc,x=1,p=*").expect("split");
    assert_eq!(fields.binding, "biws");
    assert_eq!(fields.nonce, "abc");
    assert_eq!(fields.without_proof, "c=biws,r=abc,x=1");
    assert_eq!(fields.proof, "*");
    let read = ClientFinal::decoded(fields, Some(vec![1]), Some(vec![2, 3])).expect("read");
    assert_eq!(read.binding, [1]);
    assert_eq!(read.proof, [2, 3]);
    assert_eq!(read.nonce, "abc");
    assert_eq!(read.without_proof, "c=biws,r=abc,x=1");
    let failure = ClientFinal::decoded(fields, None, None).expect_err("binding");
    assert_eq!(failure.message, "the SCRAM channel binding is not base64");
    let failure = ClientFinal::decoded(fields, Some(vec![]), None).expect_err("proof");
    assert_eq!(failure.message, "the SCRAM proof is not base64");
}

#[test]
fn a_read_name_escapes_back_to_what_was_sent() {
    for sent in ["user", "a=2Cb=3Dc", "=3D=3D", "=2C", "=3D2C", "\u{e9}=2C"] {
        let read = ClientFirst::parse(&format!("n,,n={sent},r=abc")).expect("read");
        let escaped = read.username.replace('=', "=3D").replace(',', "=2C");
        assert_eq!(escaped, sent);
    }
}

#[test]
fn whatever_opens_with_a_binding_or_a_mandatory_extension_is_refused() {
    let refused = |message: &str| ClientFirst::parse(message).expect_err("refused").message;
    for sent in ["p=", "p=,", "p=tls-unique", "p=x,,m=ext"] {
        assert!(refused(sent).contains("channel binding"));
    }
    for sent in ["n,,m=", "y,a=b,m=ext,n=user,r=abc"] {
        assert!(refused(sent).contains("mandatory"));
    }
}

#[test]
fn a_name_is_read_back_from_its_escaped_form() {
    for name in ["", "u", "a,b", "=", "=2C", ",,==", "=3D,", "\u{e9},\u{4e2d}="] {
        let escaped = name.replace('=', "=3D").replace(',', "=2C");
        assert_eq!(unescape(&escaped).expect("read"), name);
    }
    for wrong in ["=", "=2", "=2c", "a=3d", "==3D", "=3D="] {
        assert_eq!(
            unescape(wrong).expect_err("told").message,
            "the SCRAM username has an '=' that escapes nothing"
        );
    }
}

#[test]
fn a_read_message_is_written_from_what_it_is_read_as() {
    let first = ClientFirst::parse("y,a=adm,n=a=2Cb,r=nonce,x=1,y=2").expect("read");
    assert_eq!(first.gs2_header, "y,a=adm,");
    assert_eq!(first.gs2_header.matches(',').count(), 2);
    assert_eq!(first.bare, "n=a=2Cb,r=nonce,x=1,y=2");
    assert_eq!(first.username, "a,b");
    assert_eq!(first.nonce, "nonce");
    let sent = "c=biws,r=nonce,p=AAAA,p=AQID";
    let fields = ClientFinal::split(sent).expect("split");
    assert_eq!(fields.without_proof, "c=biws,r=nonce,p=AAAA");
    assert_eq!(fields.nonce, "nonce");
    assert!(!fields.proof.contains(",p="));
    assert_eq!(format!("{},p={}", fields.without_proof, fields.proof), sent);
    assert_eq!(ClientFinal::parse(sent).expect("read").proof, [1, 2, 3]);
}
