use std::io::{Error, ErrorKind};
use video_transport::transport::{PacketReceiver, PacketSender, TransportError};

struct Loopback {
    queued: Vec<Vec<u8>>,
}

impl PacketSender for Loopback {
    fn send(&mut self, packet: &[u8]) -> Result<usize, TransportError> {
        self.queued.push(packet.to_vec());
        Ok(packet.len())
    }
}

impl PacketReceiver for Loopback {
    fn receive(&mut self, buffer: &mut [u8]) -> Result<usize, TransportError> {
        if self.queued.is_empty() {
            return Err(TransportError::from(Error::new(ErrorKind::WouldBlock, "nothing queued")));
        }
        let datagram = self.queued.remove(0);
        let length = datagram.len().min(buffer.len());
        buffer[..length].copy_from_slice(&datagram[..length]);
        Ok(length)
    }
}

#[test]
fn io_errors_become_transport_errors() {
    let error = TransportError::from(Error::new(ErrorKind::TimedOut, "too late"));
    let TransportError::Io(inner) = error;
    assert_eq!(inner.kind(), ErrorKind::TimedOut);
}

#[test]
fn a_channel_can_be_put_behind_the_traits() {
    let mut channel = Loopback { queued: Vec::new() };
    assert_eq!(channel.send(b"hello").unwrap(), 5);
    let mut buffer = [0_u8; 64];
    let received = channel.receive(&mut buffer).unwrap();
    assert_eq!(&buffer[..received], b"hello");
    assert!(matches!(channel.receive(&mut buffer), Err(TransportError::Io(_))));
}
