use alloy::signers::local::PrivateKeySigner;
use alloy::signers::SignerSync;
use sequencer::transaction::{
    Address, RecoveryError, Signature, SignedTransaction, Transaction,
};

fn lib_address(a: alloy::primitives::Address) -> Address {
    Address { bytes: a.into_array() }
}

fn lib_signature(sig: alloy::primitives::Signature) -> Signature {
    Signature {
        r: sig.r().to_be_bytes::<32>(),
        s: sig.s().to_be_bytes::<32>(),
        y_parity: sig.v(),
    }
}

fn sample_transaction() -> Transaction {
    let mut dest = [0u8; 20];
    let mut i = 0usize;
    while i < 20 {
        dest[i] = i as u8;
        i += 1;
    }
    Transaction {
        amount: 100,
        destination: Address { bytes: dest },
        nonce: 1,
    }
}

fn sample_signed() -> SignedTransaction {
    SignedTransaction {
        transaction: sample_transaction(),
        signature: Signature {
            r: [0x11; 32],
            s: [0x22; 32],
            y_parity: false,
        },
    }
}

#[test]
fn test_transaction_signature() {
    // Set up a random signer.
    let alice = PrivateKeySigner::random();

    let transaction = Transaction {
        amount: 100,
        destination: lib_address(alice.address()),
        nonce: 1,
    };
    let signature = alice.sign_message_sync(&transaction.encode()).unwrap();
    let signed_transaction = SignedTransaction {
        transaction,
        signature: lib_signature(signature),
    };

    let recovered_address = signed_transaction
        .recover()
        .expect("Should recover address");
    assert_eq!(recovered_address, lib_address(alice.address()));
}

#[test]
fn transaction_encoding_is_the_documented_bytes() {
    let t = sample_transaction();
    let expected = "{\"amount\":100,\"destination\":\"0x000102030405060708090a0b0c0d0e0f10111213\",\"nonce\":1}";
    assert_eq!(t.encode(), expected.as_bytes().to_vec());
}

#[test]
fn envelope_encoding_is_the_documented_bytes() {
    let x = sample_signed();
    let expected = "{\"transaction\":{\"amount\":100,\"destination\":\"0x000102030405060708090a0b0c0d0e0f10111213\",\"nonce\":1},\"signature\":{\"r\":\"0x1111111111111111111111111111111111111111111111111111111111111111\",\"s\":\"0x2222222222222222222222222222222222222222222222222222222222222222\",\"yParity\":false}}";
    assert_eq!(x.encode(), expected.as_bytes().to_vec());
}

#[test]
fn envelope_round_trips_through_the_wire() {
    let x = sample_signed();
    let decoded = SignedTransaction::decode(&x.encode()).expect("Should decode");
    assert_eq!(decoded, x);
}

#[test]
fn envelope_round_trips_at_the_extremes() {
    let x = SignedTransaction {
        transaction: Transaction {
            amount: u64::MAX,
            destination: Address { bytes: [0xff; 20] },
            nonce: 0,
        },
        signature: Signature {
            r: [0x00; 32],
            s: [0xff; 32],
            y_parity: true,
        },
    };
    assert_eq!(SignedTransaction::decode(&x.encode()), Some(x));
}

#[test]
fn decode_accepts_bytes_written_by_hand() {
    let wire = "{\"transaction\":{\"amount\":7,\"destination\":\"0x0000000000000000000000000000000000000000\",\"nonce\":9},\"signature\":{\"r\":\"0x0000000000000000000000000000000000000000000000000000000000000001\",\"s\":\"0x0000000000000000000000000000000000000000000000000000000000000002\",\"yParity\":true}}";
    let decoded = SignedTransaction::decode(wire.as_bytes()).expect("Should decode");
    assert_eq!(decoded.transaction.amount, 7);
    assert_eq!(decoded.transaction.nonce, 9);
    assert_eq!(decoded.transaction.destination.bytes, [0u8; 20]);
    assert_eq!(decoded.signature.r[31], 1);
    assert_eq!(decoded.signature.s[31], 2);
    assert!(decoded.signature.y_parity);
}

#[test]
fn decode_rejects_malformed_bytes() {
    // Empty input.
    assert_eq!(SignedTransaction::decode(&[]), None);

    let good = sample_signed().encode();
    // Truncated at every length short of the whole.
    assert_eq!(SignedTransaction::decode(&good[..good.len() - 1]), None);
    assert_eq!(SignedTransaction::decode(&good[..10]), None);
    // Trailing garbage.
    let mut padded = good.clone();
    padded.push(b' ');
    assert_eq!(SignedTransaction::decode(&padded), None);
    // A type mismatch: the amount written as a JSON string.
    let wire = "{\"transaction\":{\"amount\":\"100\",\"destination\":\"0x000102030405060708090a0b0c0d0e0f10111213\",\"nonce\":1},\"signature\":{\"r\":\"0x1111111111111111111111111111111111111111111111111111111111111111\",\"s\":\"0x2222222222222222222222222222222222222222222222222222222222222222\",\"yParity\":false}}";
    assert_eq!(SignedTransaction::decode(wire.as_bytes()), None);
    // A numeral with a leading zero is not canonical.
    let wire = "{\"transaction\":{\"amount\":0100,\"destination\":\"0x000102030405060708090a0b0c0d0e0f10111213\",\"nonce\":1},\"signature\":{\"r\":\"0x1111111111111111111111111111111111111111111111111111111111111111\",\"s\":\"0x2222222222222222222222222222222222222222222222222222222222222222\",\"yParity\":false}}";
    assert_eq!(SignedTransaction::decode(wire.as_bytes()), None);
}

#[test]
fn recover_rejects_an_impossible_signature() {
    // A zero `r` scalar names no curve point, so recovery must fail.
    let x = SignedTransaction {
        transaction: sample_transaction(),
        signature: Signature {
            r: [0x00; 32],
            s: [0x00; 32],
            y_parity: false,
        },
    };
    assert_eq!(x.recover(), Err(RecoveryError::InvalidSignature));
}

#[test]
fn tampering_changes_or_breaks_the_recovered_identity() {
    let alice = PrivateKeySigner::random();
    let transaction = Transaction {
        amount: 100,
        destination: lib_address(alice.address()),
        nonce: 1,
    };
    let signature = lib_signature(alice.sign_message_sync(&transaction.encode()).unwrap());
    let signed = SignedTransaction {
        transaction,
        signature,
    };
    assert_eq!(
        signed.recover().expect("Should recover address"),
        lib_address(alice.address())
    );

    // Raise the amount while keeping the original signature: the signer's
    // address must no longer come back.
    let mut tampered = signed;
    tampered.transaction.amount = 200;
    match tampered.recover() {
        Ok(addr) => assert_ne!(addr, lib_address(alice.address())),
        Err(e) => assert_eq!(e, RecoveryError::InvalidSignature),
    }

    // The same holds for the destination and the nonce.
    let mut tampered = signed;
    tampered.transaction.destination.bytes[0] ^= 1;
    match tampered.recover() {
        Ok(addr) => assert_ne!(addr, lib_address(alice.address())),
        Err(e) => assert_eq!(e, RecoveryError::InvalidSignature),
    }
    let mut tampered = signed;
    tampered.transaction.nonce = 2;
    match tampered.recover() {
        Ok(addr) => assert_ne!(addr, lib_address(alice.address())),
        Err(e) => assert_eq!(e, RecoveryError::InvalidSignature),
    }
}

#[test]
fn signed_round_trip_then_recover() {
    // The scenario end to end: sign, transport, decode, recover, and then
    // tamper with the decoded copy.
    let alice = PrivateKeySigner::random();
    let transaction = Transaction {
        amount: 100,
        destination: lib_address(alice.address()),
        nonce: 1,
    };
    let signature = lib_signature(alice.sign_message_sync(&transaction.encode()).unwrap());
    let signed = SignedTransaction {
        transaction,
        signature,
    };
    let wire = signed.encode();
    let mut decoded = SignedTransaction::decode(&wire).expect("Should decode");
    assert_eq!(decoded, signed);
    assert_eq!(
        decoded.recover().expect("Should recover address"),
        lib_address(alice.address())
    );
    decoded.transaction.amount = 200;
    match decoded.recover() {
        Ok(addr) => assert_ne!(addr, lib_address(alice.address())),
        Err(e) => assert_eq!(e, RecoveryError::InvalidSignature),
    }
}
