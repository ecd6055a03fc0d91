use str0m::header::{ExtensionValues, Pt, RtpHeader, SeqNo, Ssrc};
use str0m::packet::buffer_rx::DepacketizingBuffer;
use str0m::packet::codec::{CodecExtra, SeqContiguity, Vp9CodecExtra};
use str0m::packet::meta::RtpMeta;
use str0m::packet::vp9::Vp9Depacketizer;
use str0m::time::{Frequency, Instant, MediaTime};

fn now() -> Instant {
    let since = std::time::SystemTime::now()
        .duration_since(std::time::UNIX_EPOCH)
        .unwrap();
    Instant {
        nanos: since.as_nanos() as u64,
    }
}

#[test]
fn asdasdasd() {
    let input = [
        (
            RtpMeta { received: now(), time: MediaTime::new(1707639491, Frequency::new(90000).unwrap()), seq_no: SeqNo::from(27315), header: RtpHeader { version: 2, has_padding: false, has_extension: true, marker: false, payload_type: Pt::new_with_value(98), sequence_number: 27315, timestamp: 1707639491, ssrc: Ssrc::from(1781912139), ext_vals: {let mut ext = ExtensionValues::default();
                ext.transport_cc = Some(2549); ext}, header_len: 24 }, last_sender_info: None },
            Vec::from([170, 188, 101, 16, 128, 56, 1, 64, 0, 240, 2, 128, 1, 224, 4, 20, 4, 84, 1, 52, 2, 84, 1, 131, 73, 131, 66, 0, 19, 240, 14, 248, 19, 248, 14, 248, 32, 224, 144, 112, 97, 96, 0, 18, 0, 94, 201, 249, 254, 23, 249, 94, 23, 209, 232, 63, 71, 146, 127, 79, 163, 197, 162, 154, 155, 211, 119, 100, 159, 111, 215, 119, 139, 169, 224, 110, 210, 84, 101, 181, 6, 253, 115, 145, 175, 228, 19, 96, 190, 85, 41, 30, 46, 252, 159, 167, 215, 250, 255, 209, 244, 127, 151, 231, 118, 255, 162, 246, 22, 54, 0, 187, 167, 189, 249, 64, 0, 122, 200, 255, 243, 131, 179, 27, 179, 233, 150, 212, 113, 136, 31, 193, 17, 146, 64, 86, 181, 128, 19, 199, 244, 160, 78, 87, 6, 114, 142, 30, 84, 49, 72, 198, 242, 155, 228, 249, 180, 224, 40, 225, 33, 118, 111, 185, 120, 73, 242, 246, 96, 251, 200, 55, 51, 112, 89, 195, 218, 71, 255, 49, 233, 17, 158, 239, 43, 238, 63, 142, 147, 18, 150, 73, 19, 48, 12, 14, 36, 135, 70, 174, 55, 229, 96, 252, 210, 36, 207, 100, 44, 81, 237, 225, 8, 0, 100, 80, 95, 100, 19, 95, 32, 139, 146, 71, 9, 68, 253, 188, 91, 192, 178, 231, 5, 16, 150, 145, 21, 173, 237, 0, 60, 142, 30, 35, 3, 86, 31, 119, 113, 196, 182, 41, 97, 146, 20, 91, 249, 140, 136, 14, 45, 135, 147, 180, 213, 64, 24, 118, 26, 84, 102, 116, 27, 250, 148, 166, 138, 167, 33, 68, 241, 91, 205, 146, 243, 64, 159, 236, 222, 209, 233, 137, 226, 253, 193, 6, 72, 228, 49, 138, 111, 148, 162, 67, 76, 172, 118, 79, 162, 138, 22, 76, 98, 68, 120, 117, 155, 160, 47, 172, 7, 65, 127, 248, 7, 195, 218, 179, 114, 168, 55, 174, 180, 131, 61, 230, 126, 78, 129, 36, 156, 35, 216, 46, 255, 201, 53, 1, 32, 151, 163, 107, 183, 234, 131, 212, 68, 192, 131, 99, 248, 117, 217, 99, 48, 3, 166, 190, 216, 154, 83, 33, 64, 180, 7, 56, 229, 72, 200, 73, 7, 70, 222, 37, 191, 182, 135, 218, 249, 47, 194, 81, 153, 104, 133, 21, 162, 178, 35, 226, 53, 46, 8, 124, 1, 195, 7, 254, 76, 135, 248, 30, 109, 168, 56, 255, 85, 217, 116, 158, 108, 109, 85, 192, 249, 188, 172, 38, 110, 122, 224, 198, 61, 191, 109, 201, 33, 3, 102, 207, 22, 99, 24, 5, 136, 118, 72, 66, 189, 26, 179, 184, 168, 104, 95, 57, 12, 124, 3, 132, 178, 68, 19, 50, 45, 218, 169, 204, 27, 151, 125, 143, 144, 15, 103, 62, 171, 192, 23, 252, 18, 246, 225, 113, 74, 73, 187, 142, 213, 70, 25, 98, 50, 184, 104, 234, 6, 168, 127, 197, 187, 156, 85, 102, 45, 111, 209, 180, 149, 206, 126, 61, 180, 25, 118, 17, 225, 105, 80, 58, 136, 220, 209, 196, 96, 77, 51, 139, 95, 182, 153, 19, 184, 4, 254, 210, 102, 96, 200, 44, 165, 109, 180, 226, 30, 198, 42, 165, 229, 190, 47, 157, 11, 3, 203, 113, 89, 3, 9, 77, 179, 119, 96, 144, 198, 65, 236, 134, 115, 160, 173, 213, 182, 37, 254, 165, 128, 236, 26, 76, 161, 100, 199, 127, 195, 81, 101, 238, 46, 90, 4, 105, 86, 42, 247, 0, 168, 153, 61, 125, 141, 254, 194, 221, 139, 176, 91, 43, 140, 241, 27, 9, 174, 6, 184, 14, 199, 154, 105, 101, 158, 213, 234, 90, 94, 150, 192, 25, 223, 95, 161, 89, 125, 122, 30, 184, 95, 49, 144, 0, 124, 239, 154, 234, 107, 66, 214, 189, 92, 114, 167, 77, 106, 13, 1, 209, 236, 103, 104, 40, 143, 21, 255, 50, 107, 105, 222, 1, 130, 62, 255, 142, 116, 3, 205, 161, 128, 101, 241, 188, 230, 109, 164, 15, 173, 5, 219, 224, 105, 58, 2, 160, 224, 85, 11, 5, 195, 132, 43, 41, 234, 24, 45, 116, 238, 158, 85, 172, 177, 197, 68, 32, 217, 43, 156, 88, 87, 182, 157, 164, 205, 87, 86, 29, 36, 248, 136, 53, 63, 37, 116, 132, 6, 139, 11, 168, 209, 112, 221, 77, 9, 247, 108, 235, 184, 162, 81, 65, 202, 12, 17, 136, 247, 78, 120, 174, 3, 250, 147, 151, 180, 99, 102, 36, 89, 193, 243, 180, 159, 179, 56, 83, 145, 50, 45, 182, 215, 44, 244, 92, 110, 106, 29, 111, 83, 161, 198, 171, 30, 138, 130, 86, 10, 119, 51, 97, 24, 245, 44, 19, 0, 207, 29, 182, 43, 197, 84, 24, 84, 81, 251, 56, 253, 189, 157, 57, 81, 107, 14, 71, 17, 112, 191, 225, 154, 29, 124, 96, 122, 164, 80, 108, 79, 227, 11, 114, 121, 99, 39, 139, 113, 135, 11, 175, 247, 218, 176, 173, 7, 81, 243, 210, 119, 238, 176, 43, 133, 4, 15, 175, 36, 123, 102, 125, 33, 74, 148, 93, 230, 93, 166, 224, 103, 81, 80, 171, 123, 46, 71, 35, 108, 152, 1, 149, 59, 14, 127, 54, 244, 85, 90, 109, 53, 232, 0, 189, 90, 197, 103, 205, 131, 57, 236, 208, 134, 50, 37, 49, 111, 233, 200, 220, 150, 115, 190, 2, 213, 78, 110, 87, 220, 94, 23, 144, 158, 154, 29, 198, 211, 184, 255, 23, 181, 130, 133, 123, 48, 74, 50, 194, 144, 255, 169, 115, 253, 226, 132, 166, 170, 89, 236, 129, 207, 16, 254, 82, 124, 135, 38, 243, 109, 102, 16, 166, 15, 142, 83, 64, 66, 234, 83, 228, 11, 206, 87, 61, 243, 27, 238, 199, 32, 87, 46, 32, 190, 116, 112, 34, 254, 57, 149, 2, 48, 242, 154, 121, 115, 22, 151, 163]),
        ),
        (
            RtpMeta { received: now(), time: MediaTime::new(1707639491, Frequency::new(90000).unwrap()), seq_no: SeqNo::from(27316), header: RtpHeader { version: 2, has_padding: false, has_extension: true, marker: false, payload_type: Pt::new_with_value(98), sequence_number: 27316, timestamp: 1707639491, ssrc: Ssrc::from(1781912139), ext_vals: {let mut ext = ExtensionValues::default();
                ext.transport_cc = Some(2550); ext}, header_len: 24 }, last_sender_info: None },
            Vec::from([160, 188, 101, 16, 128, 128, 230, 190, 211, 230, 116, 203, 68, 68, 101, 209, 88, 113, 253, 199, 158, 96, 214, 52, 175, 43, 75, 40, 142, 230, 81, 182, 146, 250, 68, 197, 244, 175, 120, 0, 174, 46, 171, 178, 231, 65, 1, 66, 133, 212, 241, 232, 84, 163, 169, 152, 78, 253, 175, 88, 69, 104, 44, 164, 248, 89, 161, 226, 146, 108, 30, 106, 255, 234, 153, 51, 124, 15, 186, 170, 133, 215, 165, 72, 85, 203, 130, 131, 33, 6, 162, 96, 6, 117, 40, 118, 128, 46, 253, 66, 230, 112, 59, 134, 185, 125, 167, 230, 11, 123, 172, 86, 92, 181, 22, 240, 206, 227, 133, 232, 11, 158, 87, 147, 100, 175, 117, 113, 40, 35, 108, 175, 116, 211, 202, 120, 221, 253, 35, 177, 237, 31, 82, 64, 2, 249, 145, 49, 105, 118, 184, 113, 177, 6, 65, 212, 131, 23, 182, 248, 192, 122, 83, 136, 51, 228, 50, 19, 193, 15, 160, 93, 52, 64, 41, 245, 48, 193, 229, 142, 104, 58, 72, 204, 57, 67, 229, 164, 44, 129, 228, 22, 64, 85, 8, 200, 119, 176, 146, 238, 100, 24, 214, 160, 200, 148, 251, 132, 151, 108, 213, 178, 216, 153, 27, 52, 165, 236, 111, 252, 42, 58, 35, 95, 243, 26, 131, 210, 135, 60, 55, 193, 134, 118, 28, 161, 203, 16, 253, 227, 57, 158, 194, 238, 71, 209, 243, 144, 90, 1, 64, 96, 122, 196, 39, 197, 7, 176, 204, 244, 22, 238, 69, 117, 71, 217, 139, 245, 147, 22, 138, 222, 138, 221, 222, 13, 131, 148, 96, 133, 9, 181, 4, 115, 241, 139, 115, 204, 91, 219, 100, 225, 243, 230, 90, 126, 61, 235, 70, 185, 122, 214, 107, 35, 223, 134, 238, 150, 106, 174, 39, 116, 69, 187, 147, 42, 79, 192, 99, 49, 131, 89, 226, 147, 30, 112, 216, 58, 91, 128, 80, 128, 32, 32, 132, 191, 32, 168, 156, 136, 204, 171, 225, 113, 34, 74, 63, 153, 185, 120, 155, 243, 238, 8, 4, 126, 32, 148, 35, 80, 156, 54, 28, 226, 183, 28, 61, 218, 106, 243, 136, 239, 30, 186, 201, 97, 148, 175, 233, 4, 115, 118, 175, 62, 82, 44, 39, 252, 63, 81, 255, 126, 71, 148, 60, 94, 179, 218, 116, 122, 22, 199, 16, 25, 26, 200, 111, 130, 18, 101, 106, 199, 51, 136, 52, 199, 213, 73, 84, 114, 124, 223, 48, 220, 170, 4, 226, 0, 197, 146, 153, 29, 93, 24, 220, 143, 165, 209, 83, 38, 63, 23, 149, 174, 35, 85, 207, 213, 156, 249, 180, 205, 171, 125, 26, 33, 169, 207, 209, 115, 37, 8, 143, 5, 11, 78, 141, 235, 30, 69, 21, 169, 38, 82, 212, 33, 70, 117, 35, 70, 2, 40, 155, 34, 124, 103, 136, 246, 100, 49, 179, 178, 25, 8, 193, 93, 174, 18, 84, 165, 7, 111, 73, 177, 236, 241, 172, 25, 187, 148, 152, 19, 162, 161, 143, 228, 34, 3, 157, 109, 230, 133, 116, 2, 21, 175, 27, 232, 63, 16, 201, 232, 237, 199, 172, 127, 81, 244, 37, 135, 139, 95, 146, 204, 126, 103, 159, 44, 105, 235, 28, 96, 130, 23, 116, 82, 167, 59, 113, 114, 25, 114, 222, 75, 220, 69, 67, 178, 230, 32, 67, 40, 214, 148, 152, 250, 30, 169, 54, 24, 120, 138, 148, 32, 59, 35, 45, 79, 120, 122, 69, 88, 176, 232, 23, 228, 117, 39, 63, 140, 202, 79, 181, 82, 137, 194, 126, 240, 197, 21, 29, 87, 18, 29, 91, 231, 143, 238, 235, 132, 51, 79, 89, 138, 153, 112, 223, 122, 44, 185, 59, 196, 241, 196, 206, 72, 90, 218, 63, 223, 206, 124, 104, 65, 84, 210, 86, 195, 194, 173, 226, 62, 47, 45, 4, 235, 139, 185, 217, 16, 236, 96, 250, 42, 222, 234, 184, 81, 204, 48, 65, 52, 114, 109, 96, 231, 104, 124, 107, 132, 68, 176, 42, 70, 179, 113, 105, 175, 246, 206, 140, 40, 202, 249, 245, 6, 47, 58, 152, 155, 27, 14, 144, 118, 14, 211, 99, 51, 254, 179, 218, 91, 63, 48, 116, 79, 186, 138, 230, 105, 10, 133, 97, 64, 202, 14, 208, 164, 42, 141, 147, 128, 126, 129, 3, 18, 228, 174, 58, 104, 2, 155, 150, 26, 250, 115, 157, 150, 141, 197, 32, 197, 12, 21, 178, 151, 55, 11, 143, 201, 178, 62, 48, 153, 26, 133, 163, 158, 204, 39, 253, 70, 80, 210, 86, 70, 128, 245, 65, 57, 176, 233, 51, 57, 152, 242, 222, 240, 0, 5, 24, 27, 180, 91, 236, 215, 42, 238, 109, 207, 193, 164, 160, 245, 62, 186, 241, 189, 142, 238, 222, 128, 74, 178, 186, 53, 223, 248, 26, 237, 224, 49, 252, 72, 117, 135, 161, 92, 237, 126, 176, 243, 144, 137, 150, 178, 167, 79, 124, 232, 187, 192, 67, 37, 142, 211, 10, 67, 191, 142, 48, 98, 252, 90, 9, 206, 154, 37, 220, 218, 97, 249, 1, 163, 249, 152, 250, 214, 238, 131, 45, 230, 129, 124, 236, 45, 68, 11, 186, 99, 92, 126, 120, 101, 206, 177, 60, 92, 229, 25, 19, 245, 148, 224, 221, 62, 144, 60, 236, 229, 222, 188, 39, 196, 223, 30, 255, 17, 59, 209, 105, 153, 26, 103, 76, 218, 160, 145, 2, 236, 129, 204, 148, 210, 250, 236, 172, 213, 225, 102, 115, 180, 200, 70, 64, 186, 238, 33, 55, 59, 171, 9, 134, 170, 66, 205, 213, 146, 34, 113, 203, 136, 54, 174, 202, 146, 105, 197, 181, 219, 71, 14, 250, 110, 37, 2, 209, 51, 245, 9, 107, 55, 164, 43, 6, 77, 33, 42, 31, 24, 57, 21, 223, 35, 75, 65, 131, 110, 151, 16, 199, 160, 183, 238, 181, 169, 141, 31, 217, 163]),
        ),
        (
            RtpMeta { received: now(), time: MediaTime::new(1707639491, Frequency::new(90000).unwrap()), seq_no: SeqNo::from(27317), header: RtpHeader { version: 2, has_padding: false, has_extension: true, marker: false, payload_type: Pt::new_with_value(98), sequence_number: 27317, timestamp: 1707639491, ssrc: Ssrc::from(1781912139), ext_vals: {let mut ext = ExtensionValues::default();
                ext.transport_cc = Some(2551); ext}, header_len: 24 }, last_sender_info: None },
            Vec::from([160, 188, 101, 16, 128, 32, 57, 208, 211, 53, 103, 4, 104, 39, 230, 12, 75, 108, 67, 100, 105, 229, 33, 65, 156, 64, 161, 223, 173, 101, 120, 247, 178, 208, 179, 70, 133, 239, 234, 212, 21, 68, 98, 83, 247, 40, 190, 185, 78, 92, 81, 216, 98, 12, 241, 45, 163, 194, 167, 5, 235, 55, 23, 125, 188, 154, 195, 123, 110, 90, 200, 106, 9, 198, 203, 117, 15, 88, 10, 63, 202, 57, 105, 177, 87, 190, 12, 137, 16, 93, 233, 85, 95, 181, 137, 241, 114, 75, 57, 129, 59, 3, 103, 43, 220, 124, 44, 252, 149, 211, 15, 85, 23, 183, 20, 77, 67, 205, 154, 230, 114, 107, 58, 188, 44, 207, 134, 60, 171, 163, 152, 28, 131, 47, 70, 170, 187, 66, 83, 212, 4, 42, 109, 76, 151, 248, 77, 211, 142, 58, 23, 244, 164, 143, 169, 136, 7, 203, 227, 87, 192, 54, 34, 71, 149, 18, 166, 138, 123, 102, 84, 101, 16, 102, 209, 87, 247, 170, 139, 138, 218, 185, 188, 3, 89, 124, 15, 31, 16, 66, 231, 254, 25, 188, 218, 137, 170, 158, 22, 84, 129, 170, 65, 253, 199, 70, 47, 70, 130, 71, 71, 158, 131, 248, 229, 99, 180, 2, 74, 254, 34, 112, 253, 213, 182, 244, 133, 216, 240, 46, 81, 81, 53, 134, 219, 188, 224, 17, 190, 82, 93, 115, 212, 128, 7, 241, 158, 238, 213, 83, 123, 156, 74, 202, 94, 149, 41, 46, 168, 124, 54, 23, 205, 99, 159, 230, 41, 27, 12, 151, 189, 247, 117, 185, 141, 189, 83, 137, 140, 182, 206, 46, 126, 148, 111, 90, 191, 165, 27, 235, 135, 77, 12, 237, 117, 253, 195, 114, 27, 203, 40, 121, 207, 174, 71, 57, 119, 170, 31, 181, 239, 247, 0, 236, 93, 137, 115, 204, 49, 100, 20, 39, 116, 193, 197, 113, 76, 151, 78, 61, 113, 176, 155, 170, 174, 44, 225, 58, 91, 62, 113, 83, 235, 235, 253, 223, 96, 190, 169, 230, 83, 125, 193, 171, 118, 34, 90, 126, 96, 156, 27, 77, 122, 55, 26, 64, 154, 103, 37, 176, 209, 161, 237, 7, 254, 144, 173, 146, 126, 29, 29, 109, 40, 86, 94, 220, 245, 215, 228, 55, 202, 199, 220, 84, 31, 250, 246, 44, 95, 152, 96, 237, 6, 48, 240, 109, 66, 255, 131, 108, 18, 204, 117, 204, 184, 99, 32, 216, 217, 18, 181, 186, 156, 72, 159, 68, 96, 99, 193, 42, 188, 56, 42, 93, 221, 206, 54, 222, 153, 95, 249, 79, 16, 48, 251, 174, 222, 206, 199, 51, 221, 18, 157, 70, 227, 223, 201, 110, 122, 145, 180, 68, 86, 111, 99, 144, 158, 71, 162, 22, 222, 19, 214, 46, 190, 37, 198, 55, 21, 149, 22, 20, 241, 156, 146, 41, 163, 228, 84, 40, 216, 245, 14, 176, 171, 121, 51, 169, 35, 97, 33, 47, 248, 72, 139, 203, 228, 120, 8, 13, 82, 243, 45, 138, 189, 139, 7, 100, 81, 170, 27, 242, 167, 104, 195, 49, 47, 29, 213, 223, 180, 184, 155, 158, 6, 84, 10, 40, 71, 223, 129, 54, 40, 243, 49, 159, 112, 149, 104, 217, 48, 162, 228, 46, 85, 105, 110, 156, 167, 117, 115, 210, 69, 16, 4, 61, 177, 176, 147, 6, 215, 166, 110, 135, 28, 190, 6, 185, 229, 222, 120, 182, 12, 105, 212, 167, 166, 103, 147, 62, 31, 85, 109, 3, 113, 129, 162, 202, 182, 147, 65, 214, 159, 40, 50, 145, 20, 242, 81, 16, 199, 83, 47, 157, 47, 18, 162, 160, 132, 108, 147, 222, 246, 15, 125, 246, 138, 99, 62, 146, 246, 121, 32, 95, 230, 59, 255, 46, 123, 211, 2, 224, 125, 194, 145, 232, 211, 27, 4, 17, 13, 193, 231, 132, 141, 51, 80, 157, 64, 32, 3, 106, 214, 54, 161, 194, 126, 196, 192, 140, 236, 78, 233, 21, 88, 3, 33, 10, 181, 19, 242, 217, 161, 67, 63, 112, 243, 158, 220, 53, 156, 136, 222, 208, 21, 42, 3, 148, 145, 65, 204, 196, 249, 5, 132, 30, 60, 236, 124, 23, 64, 156, 132, 177, 24, 35, 211, 167, 24, 122, 148, 98, 240, 253, 20, 164, 37, 143, 223, 195, 239, 66, 203, 1, 182, 184, 222, 91, 1, 154, 199, 158, 32, 37, 102, 152, 247, 182, 84, 237, 40, 130, 59, 175, 92, 91, 82, 18, 125, 129, 140, 52, 214, 20, 152, 93, 208, 83, 202, 218, 231, 179, 149, 198, 69, 104, 157, 147, 206, 36, 75, 168, 92, 135, 189, 139, 243, 97, 209, 157, 89, 222, 70, 223, 198, 12, 25, 206, 218, 216, 231, 93, 19, 208, 30, 62, 166, 155, 143, 50, 215, 182, 231, 84, 227, 222, 134, 186, 76, 164, 173, 212, 154, 135, 165, 14, 247, 196, 206, 82, 3, 107, 187, 161, 81, 99, 50, 208, 191, 215, 239, 80, 25, 54, 63, 202, 81, 24, 97, 206, 25, 29, 26, 194, 59, 234, 147, 6, 50, 85, 251, 197, 52, 61, 63, 52, 143, 123, 47, 66, 147, 213, 15, 111, 198, 177, 125, 179, 75, 47, 89, 110, 86, 155, 50, 88, 146, 147, 61, 117, 35, 179, 218, 133, 250, 249, 98, 54, 106, 113, 228, 97, 125, 225, 75, 100, 207, 51, 221, 21, 149, 166, 33, 82, 243, 229, 169, 69, 226, 12, 141, 95, 219, 157, 142, 4, 87, 218, 157, 78, 23, 82, 151, 39, 250, 8, 59, 239, 69, 138, 30, 75, 116, 189, 78, 40, 231, 248, 28, 178, 7, 60, 109, 4, 153, 155, 110, 150, 60, 203, 15, 159, 161, 94, 203, 47, 45, 114, 74, 93, 147, 234, 0, 11, 254, 59, 160, 102, 193, 158, 180, 157, 25, 37, 84, 41, 60, 67, 67, 209, 230, 212, 180, 131, 108, 253, 128, 191, 84, 106]),
        ),
        (
            RtpMeta { received: now(), time: MediaTime::new(1707639491, Frequency::new(90000).unwrap()), seq_no: SeqNo::from(27318), header: RtpHeader { version: 2, has_padding: false, has_extension: true, marker: false, payload_type: Pt::new_with_value(98), sequence_number: 27318, timestamp: 1707639491, ssrc: Ssrc::from(1781912139), ext_vals: {let mut ext = ExtensionValues::default();
                ext.transport_cc = Some(2552); ext}, header_len: 24 }, last_sender_info: None },
            Vec::from([164, 188, 101, 16, 128, 0, 29, 69, 92, 130, 8, 233, 117, 38, 143, 231, 62, 115, 42, 19, 86, 234, 212, 111, 215, 27, 171, 99, 229, 128, 57, 211, 240, 161, 79, 46, 71, 245, 140, 65, 135, 38, 158, 92, 23, 17, 3, 26, 142, 102, 52, 148, 31, 64, 220, 105, 48, 207, 133, 80, 37, 33, 8, 167, 206, 5, 222, 1, 221, 47, 58, 2, 50, 58, 40, 131, 226, 116, 197, 45, 61, 78, 122, 172, 163, 190, 97, 16, 73, 100, 30, 4, 39, 215, 211, 252, 40, 106, 36, 226, 242, 16, 243, 220, 218, 177, 210, 4, 213, 241, 77, 152, 149, 124, 136, 78, 149, 180, 192, 165, 107, 3, 36, 32, 147, 100, 42, 104, 109, 200, 102, 236, 61, 155, 78, 199, 92, 155, 98, 140, 93, 228, 149, 39, 150, 242, 108, 212, 4, 62, 182, 110, 122, 46, 220, 251, 125, 230, 238, 101, 154, 50, 190, 221, 81, 118, 108, 85, 154, 225, 208, 29, 86, 122, 252, 244, 26, 241, 247, 109, 62, 185, 63, 223, 125, 192, 67, 30, 9, 13, 37, 252, 176, 181, 113, 97, 48, 248, 38, 90, 235, 228, 248, 34, 225, 191, 192, 154, 210, 159, 156, 161, 28, 78, 40, 74, 101, 157, 4, 136, 92, 87, 7, 33, 205, 38, 244, 165, 213, 16, 7, 84, 241, 28, 58, 212, 6, 229, 116, 25, 241, 65, 77, 46, 202, 30, 185, 2, 167, 21, 57, 127, 157, 62, 174, 114, 241, 129, 154, 36, 168, 22, 122, 200, 235, 99, 73, 186, 147, 255, 21, 9, 231, 80, 167, 249, 115, 136, 104, 5, 227, 93, 72, 152, 206, 196, 248, 188, 146, 73, 227, 160, 162, 209, 102, 56, 165, 43, 234, 100, 31, 158, 195, 194, 227, 116, 103, 218, 229, 194, 253, 6, 121, 158, 16, 119, 115, 119, 100, 128, 111, 71, 249, 25, 172, 154, 89, 151, 217, 211, 236, 53, 57, 229, 64, 26, 100, 145, 146, 226, 55, 34, 181, 74, 223, 91, 35, 110, 223, 61, 43, 164, 14, 54, 149, 234, 114, 200, 198, 89, 163, 30, 141, 208, 236, 148, 5, 90, 85, 65, 219, 136, 56, 192, 221, 229, 252, 122, 216, 91, 85, 135, 160, 83, 54, 219, 109, 34, 117, 219, 28, 52, 16, 5, 56, 187, 219, 245, 112, 221, 100, 132, 179, 9, 11, 14, 204, 34, 93, 124, 178, 177, 54, 149, 14, 114, 27, 104, 76, 6, 222, 253, 216, 147, 57, 152, 218, 105, 72, 103, 35, 248, 169, 230, 15, 234, 26, 180, 57, 251, 9, 187, 214, 238, 173, 14, 160, 208, 187, 229, 126, 237, 46, 244, 104, 59, 143, 180, 139, 226, 116, 165, 86, 74, 55, 37, 160, 235, 170, 135, 175, 178, 225, 87, 111, 34, 222, 234, 6, 52, 39, 226, 218, 177, 21, 167, 134, 3, 48, 55, 163, 68, 5, 144, 73, 9, 131, 193, 241, 164, 180, 213, 217, 90, 31, 146, 66, 163, 195, 31, 186, 243, 238, 151, 72, 174, 207, 149, 111, 125, 120, 92, 21, 129, 63, 77, 87, 17, 30, 128, 88, 211, 153, 167, 56, 225, 115, 250, 170, 239, 142, 137, 63, 122, 169, 249, 215, 61, 113, 143, 6, 30, 212, 22, 165, 122, 165, 9, 133, 6, 89, 70, 194, 91, 243, 103, 246, 52, 133, 36, 255, 23, 18, 184, 29, 136, 194, 112, 56, 58, 176, 83, 78, 93, 8, 131, 233, 20, 84, 241, 73, 66, 150, 106, 16, 41, 6, 149, 39, 144, 156, 222, 9, 183, 197, 73, 146, 147, 60, 99, 91, 117, 184, 150, 47, 32, 23, 56, 139, 29, 39, 141, 147, 250, 254, 188, 244, 105, 70, 188, 237, 164, 114, 57, 16, 20, 144, 98, 30, 235, 102, 111, 148, 31, 152, 197, 122, 47, 86, 95, 78, 118, 96, 195, 176, 193, 230, 5, 32, 53, 252, 213, 35, 98, 103, 120, 181, 35, 207, 27, 204, 150, 102, 149, 163, 58, 92, 116, 19, 111, 122, 233, 109, 147, 205, 45, 240, 32, 226, 233, 199, 183, 176, 238, 73, 225, 70, 221, 69, 220, 110, 166, 73, 84, 51, 171, 247, 40, 163, 62, 45, 71, 194, 95, 220, 207, 241, 57, 223, 202, 116, 198, 184, 109, 249, 118, 187, 59, 49, 36, 26, 52, 122, 80, 61, 204, 10, 192, 28, 227, 101, 136, 41, 136, 26, 203, 71, 211, 161, 28, 78, 25, 107, 237, 112, 24, 63, 58, 75, 53, 29, 110, 72, 138, 117, 9, 179, 89, 251, 2, 120, 31, 74, 130, 76, 152, 69, 246, 119, 178, 126, 24, 225, 74, 236, 68, 78, 54, 95, 47, 65, 90, 46, 53, 10, 92, 19, 117, 136, 54, 242, 182, 171, 201, 13, 169, 105, 255, 27, 78, 92, 98, 174, 1, 251, 148, 36, 14, 163, 234, 173, 166, 206, 59, 124, 89, 172, 124, 194, 134, 5, 73, 31, 17, 162, 125, 227, 27, 186, 86, 232, 95, 81, 58, 255, 152, 197, 200, 195, 227, 39, 97, 189, 159, 226, 98, 85, 121, 62, 154, 95, 89, 36, 90, 26, 179, 99, 57, 229, 38, 92, 36, 158, 80, 89, 171, 24, 1, 247, 143, 6, 102, 35, 13, 68, 47, 127, 69, 218, 156, 27, 118, 235, 191, 32, 37, 50, 24, 220, 240, 216, 28, 220, 171, 126, 142, 87, 156, 141, 189, 201, 238, 141, 37, 24, 147, 74, 3, 249, 63, 93, 246, 20, 37, 219, 179, 244, 248, 64, 40, 200, 168, 144, 152, 169, 211, 141, 49, 84, 60, 155, 159, 34, 114, 143, 195, 83, 82, 159, 200, 72, 186, 212, 220, 194, 179, 206, 77, 149, 129, 187, 57, 12, 171, 129, 48, 54, 204, 44, 138, 84, 129, 21, 214, 216, 144, 165, 247, 147, 31, 166, 44, 126, 127, 63, 115, 53, 123, 150, 137, 95, 83, 184, 100, 128, 0]),
        ),
        (
            RtpMeta { received: now(), time: MediaTime::new(1707639491, Frequency::new(90000).unwrap()), seq_no: SeqNo::from(27319), header: RtpHeader { version: 2, has_padding: false, has_extension: true, marker: false, payload_type: Pt::new_with_value(98), sequence_number: 27319, timestamp: 1707639491, ssrc: Ssrc::from(1781912139), ext_vals: {let mut ext = ExtensionValues::default();
                ext.transport_cc = Some(2553); ext}, header_len: 24 }, last_sender_info: None },
            Vec::from([169, 188, 101, 19, 128, 135, 2, 2, 0, 4, 254, 3, 190, 194, 7, 4, 131, 131, 10, 194, 0, 158, 127, 188, 95, 250, 191, 253, 31, 243, 63, 141, 217, 40, 230, 151, 240, 56, 55, 240, 254, 247, 221, 119, 95, 189, 238, 82, 230, 212, 143, 211, 243, 191, 55, 204, 254, 63, 211, 251, 63, 131, 215, 232, 235, 183, 150, 182, 245, 79, 165, 246, 255, 246, 255, 87, 229, 29, 234, 253, 71, 174, 101, 125, 35, 246, 255, 230, 127, 170, 89, 118, 136, 254, 77, 149, 250, 143, 19, 191, 90, 253, 201, 186, 203, 215, 122, 143, 87, 234, 63, 165, 57, 170, 84, 53, 143, 82, 156, 217, 47, 205, 234, 62, 47, 221, 223, 240, 254, 127, 191, 30, 49, 123, 30, 49, 139, 233, 249, 127, 47, 54, 255, 237, 248, 208, 255, 254, 122, 255, 181, 254, 38, 230, 238, 15, 5, 172, 91, 178, 235, 79, 109, 207, 129, 241, 184, 55, 189, 249, 155, 187, 215, 72, 229, 251, 7, 234, 64, 0, 0, 0, 6, 123, 127, 141, 177, 118, 111, 156, 78, 147, 34, 0, 7, 165, 146, 17, 123, 27, 11, 9, 203, 174, 220, 80, 101, 103, 91, 18, 59, 251, 62, 181, 170, 243, 203, 169, 55, 192, 165, 166, 190, 22, 217, 16, 128, 74, 208, 22, 155, 166, 32, 185, 110, 112, 197, 91, 224, 117, 235, 62, 45, 196, 219, 212, 116, 95, 220, 28, 48, 143, 174, 212, 180, 152, 171, 189, 151, 213, 0, 0, 5, 181, 191, 248, 134, 214, 97, 55, 209, 108, 215, 197, 110, 63, 170, 122, 32, 160, 72, 160, 245, 246, 48, 250, 236, 112, 52, 190, 186, 7, 238, 254, 204, 116, 180, 21, 220, 111, 69, 77, 126, 80, 166, 197, 61, 103, 11, 108, 35, 32, 214, 138, 78, 27, 44, 24, 230, 4, 78, 168, 238, 73, 149, 20, 159, 143, 66, 56, 112, 118, 36, 67, 35, 38, 216, 113, 40, 9, 180, 223, 110, 112, 41, 6, 197, 217, 215, 206, 227, 42, 101, 115, 238, 110, 150, 252, 69, 91, 200, 217, 222, 90, 119, 182, 57, 9, 198, 141, 252, 57, 89, 35, 19, 206, 30, 137, 131, 61, 90, 25, 0, 69, 168, 26, 234, 109, 47, 21, 22, 34, 134, 97, 245, 74, 27, 66, 94, 174, 146, 63, 9, 70, 164, 116, 93, 109, 108, 245, 28, 133, 97, 101, 188, 181, 23, 131, 200, 15, 53, 36, 222, 139, 109, 130, 208, 114, 86, 241, 17, 11, 51, 217, 116, 198, 234, 122, 212, 13, 29, 142, 14, 194, 54, 4, 53, 76, 207, 112, 241, 0, 65, 58, 72, 12, 33, 212, 109, 205, 118, 248, 30, 226, 209, 172, 211, 157, 81, 209, 141, 45, 72, 185, 114, 103, 227, 174, 88, 103, 148, 80, 249, 26, 24, 173, 213, 252, 244, 30, 210, 71, 255, 185, 73, 254, 9, 91, 95, 195, 225, 43, 32, 165, 120, 81, 140, 88, 25, 205, 24, 29, 180, 145, 191, 217, 59, 191, 107, 205, 75, 250, 98, 28, 244, 252, 67, 216, 239, 148, 145, 23, 121, 0, 86, 182, 67, 58, 140, 225, 148, 241, 210, 248, 41, 198, 223, 240, 107, 135, 11, 78, 126, 40, 3, 94, 96, 60, 237, 68, 5, 125, 19, 193, 171, 28, 109, 193, 17, 240, 147, 98, 83, 25, 151, 10, 13, 40, 148, 66, 114, 119, 239, 96, 31, 179, 82, 168, 214, 55, 13, 250, 95, 12, 129, 217, 29, 15, 210, 179, 247, 49, 56, 177, 101, 232, 135, 27, 136, 200, 64, 199, 227, 78, 167, 58, 12, 135, 208, 32, 131, 2, 11, 170, 215, 207, 128, 51, 92, 51, 139, 128, 232, 108, 62, 31, 199, 155, 19, 141, 250, 101, 218, 73, 1, 212, 109, 222, 37, 200, 30, 70, 251, 115, 107, 217, 88, 196, 49, 174, 77, 19, 121, 232, 177, 38, 141, 89, 102, 183, 184, 128, 194, 153, 142, 211, 87, 45, 224, 47, 242, 69, 241, 241, 240, 153, 136, 108, 190, 86, 219, 26, 141, 103, 239, 8, 235, 255, 161, 195, 38, 51, 4, 120, 19, 38, 154, 135, 94, 82, 106, 176, 14, 131, 83, 124, 239, 183, 35, 16, 113, 216, 5, 225, 181, 87, 162, 217, 187, 139, 156, 254, 88, 219, 125, 70, 244, 136, 160, 160, 103, 59, 83, 130, 217, 77, 198, 179, 124, 109, 13, 85, 0, 165, 241, 14, 180, 76, 48, 4, 67, 48, 106, 138, 6, 152, 134, 103, 133, 65, 55, 241, 215, 241, 97, 4, 120, 119, 255, 159, 135, 65, 166, 210, 183, 118, 72, 179, 51, 116, 172, 15, 131, 168, 12, 25, 77, 31, 255, 129, 73, 158, 22, 232, 251, 67, 82, 81, 194, 149, 254, 96, 89, 71, 152, 6, 20, 182, 197, 84, 43, 149, 51, 69, 148, 156, 53, 243, 135, 166, 254, 153, 57, 170, 11, 154, 121, 33, 239, 37, 6, 100, 177, 34, 166, 220, 9, 172, 201, 50, 241, 28, 123, 8, 66, 232, 30, 183, 243, 0, 166, 15, 172, 111, 68, 117, 190, 117, 222, 152, 53, 32, 103, 245, 1, 36, 163, 224, 96, 141, 224, 122, 26, 29, 146, 96, 220, 185, 239, 253, 218, 231, 231, 55, 191, 233, 85, 21, 228, 7, 252, 247, 31, 19, 99, 185, 254, 243, 27, 26, 250, 37, 127, 211, 135, 159, 159, 96, 188, 234, 164, 209, 208, 211, 133, 119, 117, 35, 234, 111, 192, 215, 2, 169, 119, 254, 176, 124, 205, 51, 105, 159, 142, 219, 1, 92, 187, 191, 99, 30, 136, 104, 36, 183, 219, 205, 128, 18, 222, 88, 5, 86, 162, 13, 25, 163, 72, 99, 50, 135, 205, 14, 2, 210, 65, 202, 180, 174, 74, 52, 193, 129, 192, 229, 106, 57, 67, 226, 91, 115, 251, 24, 117, 158, 135, 163, 192, 192, 200, 104, 42, 14, 180, 19, 9, 239, 60, 244, 6, 64, 73, 212, 210, 186, 181, 205, 254, 188, 105, 225, 17, 195, 74, 78, 222, 201, 253, 128, 180, 67, 170, 181, 82, 224, 72, 186, 223, 6, 191, 131, 46, 213, 67, 165, 115, 137, 35, 88, 21, 215, 57, 233, 166, 4, 210, 145, 192, 214, 226, 147, 15, 247, 34, 154, 50, 243]),
        ),
        (
            RtpMeta { received: now(), time: MediaTime::new(1707639491, Frequency::new(90000).unwrap()), seq_no: SeqNo::from(27320), header: RtpHeader { version: 2, has_padding: false, has_extension: true, marker: false, payload_type: Pt::new_with_value(98), sequence_number: 27320, timestamp: 1707639491, ssrc: Ssrc::from(1781912139), ext_vals: {let mut ext = ExtensionValues::default();
                ext.transport_cc = Some(2554); ext}, header_len: 24 }, last_sender_info: None },
            Vec::from([161, 188, 101, 19, 128, 74, 129, 186, 191, 243, 94, 115, 98, 147, 29, 214, 164, 0, 121, 214, 195, 149, 146, 100, 185, 152, 201, 101, 221, 22, 167, 98, 55, 247, 195, 188, 95, 0, 109, 3, 130, 26, 159, 217, 246, 204, 202, 218, 130, 163, 221, 83, 165, 123, 251, 81, 216, 216, 145, 171, 34, 13, 51, 116, 194, 43, 236, 92, 151, 243, 147, 164, 14, 29, 169, 9, 227, 50, 192, 96, 101, 247, 66, 158, 176, 232, 151, 133, 149, 188, 27, 185, 238, 170, 202, 89, 188, 159, 143, 215, 43, 18, 128, 190, 147, 31, 76, 185, 176, 87, 40, 5, 186, 94, 127, 60, 96, 203, 24, 3, 183, 245, 118, 35, 198, 128, 187, 180, 173, 159, 146, 54, 134, 246, 126, 47, 155, 68, 28, 252, 160, 92, 233, 67, 239, 249, 6, 150, 213, 89, 201, 249, 126, 66, 229, 227, 238, 52, 7, 15, 29, 111, 40, 98, 234, 63, 6, 136, 17, 18, 94, 37, 251, 196, 130, 139, 201, 56, 103, 3, 194, 18, 206, 186, 169, 214, 109, 97, 242, 77, 115, 42, 23, 168, 207, 26, 211, 128, 191, 137, 84, 86, 224, 35, 25, 192, 43, 12, 3, 140, 24, 47, 217, 221, 63, 188, 27, 196, 77, 219, 100, 71, 136, 128, 182, 183, 112, 85, 210, 50, 78, 175, 209, 45, 59, 25, 76, 175, 30, 120, 98, 97, 83, 230, 158, 53, 156, 43, 164, 222, 22, 213, 104, 249, 96, 135, 212, 150, 114, 208, 42, 47, 216, 44, 22, 68, 111, 72, 251, 12, 101, 79, 52, 26, 79, 255, 187, 143, 167, 126, 56, 169, 69, 140, 101, 112, 49, 11, 124, 195, 98, 252, 129, 148, 231, 165, 101, 29, 191, 7, 0, 88, 120, 118, 73, 237, 145, 65, 26, 112, 115, 29, 122, 223, 31, 228, 171, 74, 107, 180, 111, 255, 133, 231, 231, 212, 98, 164, 71, 119, 0, 20, 126, 75, 36, 94, 20, 117, 140, 37, 85, 133, 16, 207, 184, 30, 113, 121, 49, 66, 93, 65, 176, 196, 101, 218, 116, 160, 156, 239, 5, 170, 225, 149, 97, 109, 138, 242, 206, 44, 159, 230, 111, 26, 127, 132, 23, 170, 40, 57, 69, 250, 13, 160, 120, 202, 43, 84, 198, 214, 246, 5, 176, 42, 52, 89, 185, 250, 15, 59, 234, 91, 68, 140, 139, 25, 33, 85, 243, 104, 203, 175, 220, 6, 100, 55, 102, 40, 190, 170, 19, 162, 43, 242, 239, 66, 60, 247, 241, 156, 23, 27, 80, 78, 2, 92, 152, 9, 93, 165, 184, 98, 201, 10, 118, 66, 148, 79, 21, 188, 220, 234, 57, 111, 169, 178, 103, 40, 165, 121, 207, 88, 144, 23, 238, 41, 12, 179, 246, 92, 124, 238, 206, 181, 168, 69, 183, 92, 137, 190, 153, 55, 196, 142, 95, 124, 148, 76, 142, 193, 117, 52, 103, 136, 99, 220, 157, 88, 69, 246, 49, 39, 138, 72, 36, 118, 11, 0, 250, 251, 178, 130, 130, 122, 244, 229, 206, 102, 34, 195, 107, 183, 169, 123, 216, 3, 158, 79, 122, 25, 165, 42, 196, 34, 35, 84, 210, 211, 56, 221, 98, 156, 201, 137, 80, 45, 118, 246, 39, 91, 91, 159, 173, 140, 69, 92, 150, 43, 51, 209, 76, 130, 130, 16, 255, 220, 106, 244, 5, 189, 211, 155, 19, 126, 230, 248, 192, 175, 186, 154, 82, 138, 122, 218, 102, 81, 99, 45, 7, 80, 187, 131, 139, 131, 106, 4, 41, 200, 31, 243, 168, 122, 56, 237, 222, 88, 26, 95, 113, 7, 58, 96, 198, 204, 242, 174, 158, 85, 79, 143, 5, 17, 98, 205, 141, 37, 176, 27, 105, 160, 30, 127, 108, 229, 248, 5, 64, 109, 200, 193, 103, 114, 60, 95, 135, 108, 179, 12, 56, 93, 58, 29, 248, 150, 4, 77, 213, 131, 46, 252, 237, 155, 42, 110, 31, 29, 193, 200, 188, 90, 110, 78, 110, 162, 125, 46, 105, 58, 126, 91, 255, 230, 35, 195, 136, 200, 182, 209, 45, 21, 171, 251, 34, 65, 51, 163, 175, 115, 49, 216, 93, 152, 56, 151, 60, 178, 108, 185, 101, 39, 184, 153, 178, 228, 255, 176, 169, 220, 208, 191, 183, 97, 119, 202, 115, 180, 192, 177, 7, 253, 176, 235, 164, 153, 33, 75, 244, 1, 65, 57, 83, 205, 150, 247, 58, 179, 21, 93, 177, 156, 200, 125, 106, 222, 119, 213, 4, 134, 212, 54, 206, 174, 124, 245, 155, 129, 193, 24, 27, 170, 246, 182, 215, 225, 111, 0, 183, 227, 247, 185, 252, 0, 127, 141, 74, 180, 202, 170, 3, 57, 156, 252, 67, 99, 146, 126, 161, 201, 208, 17, 105, 141, 78, 136, 86, 87, 196, 72, 254, 8, 103, 144, 166, 37, 149, 32, 143, 105, 59, 193, 210, 181, 95, 7, 81, 216, 76, 252, 204, 244, 157, 2, 224, 112, 71, 118, 104, 127, 99, 216, 38, 232, 43, 61, 224, 13, 130, 120, 176, 79, 81, 163, 30, 165, 161, 11, 71, 29, 208, 165, 167, 68, 89, 211, 30, 143, 69, 194, 19, 189, 121, 189, 135, 185, 136, 245, 103, 11, 128, 210, 216, 41, 7, 247, 181, 29, 223, 196, 83, 161, 135, 98, 254, 36, 77, 78, 32, 79, 1, 223, 207, 156, 82, 90, 89, 221, 210, 152, 131, 110, 67, 16, 216, 169, 146, 4, 180, 92, 80, 134, 138, 75, 6, 73, 0, 103, 14, 236, 21, 99, 152, 255, 185, 86, 223, 108, 98, 24, 62, 132, 223, 38, 14, 35, 39, 175, 180, 244, 59, 178, 79, 82, 183, 72, 219, 87, 29, 215, 111, 189, 249, 74, 20, 222, 208, 90, 171, 241, 172, 119, 158, 148, 55, 42, 241, 236, 247, 135, 219, 84, 45, 244, 245, 139, 177, 188, 205, 153, 114, 111, 7, 196, 142, 96, 184, 31, 119, 105, 10, 222, 4, 84, 116, 10, 110, 165, 160, 55, 157, 169, 34, 185, 186, 51, 69, 135, 144, 220, 163, 17, 173, 56, 124, 178, 155, 122, 42, 43, 182, 167, 243, 32, 67, 164, 182, 226, 136, 178, 197, 147, 147, 139, 230, 160, 63, 28, 251, 154, 253, 78, 171, 252, 221, 95, 178, 139, 51, 85, 79, 74, 189, 198, 114, 181, 202, 136]),
        ),
        (
            RtpMeta { received: now(), time: MediaTime::new(1707639491, Frequency::new(90000).unwrap()), seq_no: SeqNo::from(27321), header: RtpHeader { version: 2, has_padding: false, has_extension: true, marker: false, payload_type: Pt::new_with_value(98), sequence_number: 27321, timestamp: 1707639491, ssrc: Ssrc::from(1781912139), ext_vals: {let mut ext = ExtensionValues::default();
                ext.transport_cc = Some(2555); ext}, header_len: 24 }, last_sender_info: None },
            Vec::from([161, 188, 101, 19, 128, 112, 32, 62, 164, 250, 224, 136, 59, 69, 111, 17, 1, 53, 179, 78, 44, 174, 126, 64, 188, 170, 102, 135, 43, 90, 193, 15, 231, 21, 230, 64, 199, 166, 200, 108, 253, 43, 138, 43, 232, 150, 232, 88, 193, 186, 143, 239, 108, 37, 51, 213, 88, 169, 43, 169, 154, 187, 125, 163, 198, 151, 12, 236, 230, 120, 113, 34, 138, 143, 72, 142, 174, 137, 60, 8, 154, 151, 157, 68, 192, 152, 66, 172, 44, 210, 100, 14, 183, 115, 165, 222, 244, 226, 38, 17, 125, 103, 26, 122, 254, 98, 146, 174, 170, 208, 157, 23, 93, 73, 199, 222, 234, 184, 131, 109, 247, 179, 24, 227, 151, 57, 198, 226, 65, 186, 245, 244, 249, 40, 133, 233, 237, 216, 89, 53, 144, 106, 194, 117, 190, 91, 250, 202, 64, 205, 61, 58, 1, 115, 90, 232, 80, 127, 237, 90, 139, 93, 73, 121, 98, 141, 130, 12, 165, 85, 41, 77, 69, 7, 3, 84, 202, 126, 76, 227, 143, 254, 142, 115, 123, 247, 202, 96, 137, 116, 189, 3, 112, 240, 132, 1, 235, 96, 14, 46, 98, 92, 118, 206, 92, 249, 174, 170, 215, 161, 251, 246, 100, 13, 49, 182, 127, 218, 15, 119, 117, 236, 174, 94, 219, 101, 85, 6, 244, 206, 176, 50, 211, 211, 13, 137, 220, 5, 2, 238, 31, 56, 89, 156, 92, 213, 173, 150, 247, 40, 28, 195, 123, 56, 25, 202, 211, 199, 107, 250, 15, 37, 211, 235, 71, 119, 249, 41, 139, 75, 244, 139, 142, 95, 10, 133, 122, 146, 232, 250, 41, 80, 103, 214, 132, 142, 179, 184, 219, 102, 141, 59, 79, 148, 220, 114, 129, 152, 189, 234, 141, 181, 33, 164, 39, 217, 166, 42, 87, 104, 226, 150, 149, 99, 148, 35, 6, 32, 143, 173, 162, 140, 33, 247, 195, 156, 83, 154, 40, 165, 16, 224, 201, 82, 33, 250, 53, 174, 170, 0, 108, 208, 234, 255, 188, 109, 170, 3, 177, 117, 158, 244, 246, 132, 76, 192, 40, 162, 68, 172, 251, 81, 6, 26, 13, 118, 136, 62, 94, 184, 194, 235, 244, 145, 80, 200, 37, 176, 177, 79, 245, 15, 100, 35, 24, 98, 134, 223, 167, 31, 210, 127, 33, 127, 158, 56, 102, 209, 37, 123, 0, 94, 59, 38, 94, 208, 241, 236, 209, 158, 111, 96, 71, 115, 120, 174, 21, 108, 32, 36, 46, 179, 8, 59, 201, 162, 250, 154, 20, 68, 50, 139, 101, 3, 38, 51, 201, 45, 64, 68, 150, 15, 9, 146, 3, 121, 1, 143, 237, 43, 57, 24, 133, 25, 185, 135, 195, 169, 171, 120, 244, 164, 251, 220, 88, 198, 228, 21, 99, 113, 38, 65, 63, 87, 103, 37, 87, 147, 157, 27, 3, 115, 252, 188, 228, 176, 170, 91, 164, 123, 47, 84, 136, 240, 232, 23, 121, 2, 166, 56, 116, 3, 226, 83, 54, 86, 221, 94, 18, 200, 11, 36, 193, 50, 52, 89, 171, 68, 68, 167, 56, 75, 68, 244, 68, 28, 11, 184, 206, 49, 156, 84, 93, 116, 147, 244, 105, 154, 124, 0, 251, 26, 172, 3, 151, 161, 90, 210, 74, 94, 25, 161, 188, 46, 73, 203, 3, 3, 86, 157, 16, 73, 103, 157, 5, 187, 141, 73, 209, 223, 245, 98, 186, 139, 49, 76, 168, 249, 123, 38, 86, 103, 177, 106, 176, 137, 4, 38, 70, 159, 216, 199, 132, 82, 64, 34, 211, 151, 214, 177, 5, 73, 57, 146, 205, 125, 22, 109, 8, 65, 243, 155, 44, 179, 68, 24, 180, 143, 240, 227, 143, 19, 138, 232, 114, 43, 237, 48, 254, 40, 25, 240, 72, 181, 82, 50, 181, 157, 255, 82, 69, 52, 157, 201, 248, 208, 113, 165, 121, 127, 27, 149, 70, 63, 7, 244, 167, 44, 229, 134, 167, 31, 220, 218, 247, 47, 138, 137, 248, 67, 78, 236, 105, 109, 7, 121, 34, 82, 65, 29, 17, 76, 182, 94, 196, 8, 131, 117, 24, 183, 4, 107, 211, 43, 158, 119, 48, 189, 63, 183, 16, 22, 3, 8, 191, 252, 225, 7, 52, 201, 143, 244, 15, 180, 76, 192, 199, 178, 100, 128, 42, 59, 233, 146, 94, 170, 70, 221, 176, 202, 51, 49, 47, 138, 143, 241, 128, 109, 228, 113, 245, 6, 192, 216, 58, 61, 131, 47, 197, 220, 125, 69, 188, 219, 5, 121, 107, 103, 126, 158, 13, 68, 48, 248, 118, 224, 230, 119, 151, 99, 118, 189, 83, 213, 5, 136, 31, 162, 247, 4, 90, 45, 148, 102, 215, 134, 192, 138, 9, 25, 32, 158, 71, 36, 140, 49, 116, 40, 211, 28, 35, 59, 8, 142, 236, 85, 29, 170, 71, 88, 221, 123, 147, 177, 227, 24, 161, 136, 205, 65, 89, 202, 70, 177, 178, 229, 66, 128, 222, 228, 176, 3, 50, 87, 189, 135, 4, 163, 122, 74, 176, 229, 209, 15, 201, 233, 100, 66, 185, 25, 103, 128, 194, 219, 103, 85, 28, 239, 54, 245, 150, 166, 75, 92, 185, 246, 217, 247, 227, 105, 241, 114, 131, 58, 48, 247, 243, 75, 205, 45, 175, 211, 119, 156, 29, 55, 202, 64, 43, 50, 36, 86, 229, 152, 10, 147, 66, 217, 218, 75, 190, 93, 146, 127, 201, 48, 169, 2, 127, 26, 232, 125, 177, 170, 169, 237, 186, 144, 151, 238, 231, 55, 155, 173, 143, 79, 206, 181, 88, 84, 2, 183, 136, 0, 84, 45, 183, 115, 72, 21, 192, 225, 77, 62, 241, 174, 32, 97, 109, 149, 109, 28, 231, 20, 197, 98, 71, 48, 23, 157, 64, 245, 245, 216, 46, 208, 8, 55, 231, 245, 240, 252, 153, 206, 146, 209, 212, 202, 230, 47, 29, 52, 230, 222, 34, 25, 148, 68, 40, 66, 3, 206, 105, 146, 161, 222, 235, 87, 123, 2, 106, 200, 193, 234, 227, 212, 224, 28, 26, 237, 35, 114, 171, 33, 246, 150, 114, 17, 208, 213, 86, 7, 191, 106, 55, 34, 128, 78, 233, 254, 95, 60, 225, 222, 249, 200, 201, 142, 172, 137, 47, 46, 254, 168, 38, 5, 219, 44, 60, 235, 6, 195, 243, 86, 221, 37, 228, 70, 238, 41, 27, 212, 104, 96, 13, 116]),
        ),
        (
            RtpMeta { received: now(), time: MediaTime::new(1707639491, Frequency::new(90000).unwrap()), seq_no: SeqNo::from(27322), header: RtpHeader { version: 2, has_padding: false, has_extension: true, marker: false, payload_type: Pt::new_with_value(98), sequence_number: 27322, timestamp: 1707639491, ssrc: Ssrc::from(1781912139), ext_vals: {let mut ext = ExtensionValues::default();
                ext.transport_cc = Some(2556); ext}, header_len: 24 }, last_sender_info: None },
            Vec::from([161, 188, 101, 19, 128, 3, 99, 75, 165, 175, 229, 57, 109, 227, 254, 230, 154, 100, 141, 224, 201, 223, 120, 61, 8, 127, 203, 225, 202, 27, 7, 97, 236, 35, 126, 33, 163, 160, 215, 160, 137, 184, 118, 6, 44, 219, 155, 65, 160, 167, 108, 184, 173, 116, 136, 117, 242, 212, 85, 224, 181, 6, 175, 19, 248, 234, 38, 123, 212, 49, 140, 236, 24, 198, 141, 157, 43, 136, 56, 69, 83, 42, 65, 190, 143, 140, 146, 170, 145, 129, 197, 161, 51, 182, 147, 238, 232, 88, 112, 242, 42, 149, 192, 105, 132, 191, 35, 219, 31, 154, 22, 41, 109, 233, 191, 103, 159, 42, 192, 45, 90, 60, 155, 40, 171, 113, 144, 205, 64, 76, 31, 251, 143, 205, 187, 88, 25, 34, 149, 106, 77, 110, 47, 219, 186, 211, 15, 228, 6, 23, 8, 42, 194, 159, 252, 123, 82, 174, 194, 121, 238, 201, 251, 199, 114, 206, 104, 100, 68, 88, 228, 45, 250, 207, 141, 245, 123, 7, 173, 43, 62, 68, 48, 7, 56, 114, 246, 140, 167, 3, 207, 140, 140, 55, 16, 255, 76, 70, 106, 90, 202, 73, 151, 39, 167, 24, 102, 20, 209, 125, 31, 247, 24, 185, 132, 58, 190, 177, 14, 133, 13, 37, 127, 162, 195, 97, 171, 140, 182, 78, 47, 47, 62, 136, 171, 219, 42, 1, 100, 92, 168, 135, 209, 120, 177, 194, 248, 152, 110, 246, 147, 183, 43, 96, 44, 209, 65, 156, 59, 194, 105, 95, 185, 97, 245, 150, 193, 232, 111, 164, 75, 232, 229, 250, 46, 242, 136, 16, 101, 217, 1, 227, 220, 80, 229, 143, 62, 186, 153, 204, 179, 106, 150, 177, 174, 74, 231, 164, 219, 88, 147, 69, 213, 202, 147, 17, 144, 63, 194, 8, 211, 195, 42, 37, 163, 223, 79, 106, 91, 111, 102, 99, 50, 58, 90, 41, 194, 210, 39, 158, 178, 75, 156, 126, 203, 184, 244, 48, 22, 198, 206, 12, 228, 84, 92, 82, 81, 154, 225, 45, 154, 154, 148, 78, 58, 242, 27, 137, 192, 78, 46, 236, 165, 226, 196, 238, 7, 86, 73, 191, 96, 84, 203, 236, 185, 67, 123, 196, 205, 43, 28, 40, 219, 202, 241, 249, 127, 38, 145, 55, 97, 33, 239, 132, 94, 113, 242, 114, 162, 88, 222, 122, 116, 100, 50, 17, 173, 168, 110, 105, 27, 22, 141, 12, 222, 135, 124, 71, 128, 68, 140, 179, 186, 128, 214, 69, 172, 25, 139, 153, 140, 149, 194, 250, 103, 90, 172, 181, 53, 132, 154, 37, 160, 37, 132, 116, 70, 151, 87, 194, 223, 150, 144, 100, 76, 50, 192, 102, 113, 102, 111, 200, 121, 148, 87, 241, 189, 152, 130, 178, 65, 20, 108, 170, 147, 23, 22, 213, 71, 129, 40, 117, 110, 55, 1, 96, 209, 169, 156, 110, 201, 48, 192, 223, 157, 64, 28, 46, 234, 39, 250, 135, 13, 115, 223, 159, 65, 79, 44, 6, 148, 96, 26, 41, 247, 240, 190, 229, 179, 15, 167, 14, 136, 178, 51, 152, 179, 219, 150, 96, 30, 58, 72, 71, 57, 196, 87, 170, 20, 182, 70, 24, 202, 100, 209, 3, 84, 74, 191, 121, 189, 13, 246, 162, 105, 170, 249, 135, 147, 80, 129, 148, 36, 140, 183, 155, 108, 60, 24, 186, 44, 167, 216, 70, 104, 252, 231, 199, 65, 11, 234, 200, 234, 233, 128, 246, 67, 7, 248, 140, 163, 23, 206, 156, 236, 158, 144, 135, 242, 62, 222, 201, 190, 179, 97, 221, 101, 96, 39, 0, 239, 41, 121, 99, 128, 47, 237, 116, 179, 238, 175, 240, 78, 39, 8, 162, 113, 211, 108, 238, 238, 29, 241, 136, 217, 58, 78, 163, 151, 250, 99, 199, 198, 74, 79, 227, 135, 114, 78, 183, 220, 12, 93, 234, 188, 239, 152, 59, 61, 214, 19, 225, 3, 26, 188, 158, 196, 125, 41, 169, 84, 184, 62, 158, 155, 232, 17, 236, 203, 106, 215, 6, 140, 5, 71, 66, 95, 234, 44, 240, 120, 9, 214, 165, 18, 168, 48, 254, 207, 202, 83, 202, 189, 246, 145, 44, 126, 127, 93, 146, 77, 48, 178, 108, 84, 203, 252, 238, 19, 172, 33, 164, 67, 165, 108, 224, 25, 75, 82, 237, 1, 142, 73, 121, 48, 55, 209, 5, 88, 147, 238, 37, 228, 110, 234, 69, 247, 41, 241, 109, 143, 131, 149, 234, 215, 131, 113, 150, 203, 205, 208, 134, 139, 87, 236, 70, 53, 27, 176, 250, 201, 62, 180, 58, 134, 140, 124, 192, 7, 128, 231, 117, 132, 75, 180, 100, 143, 138, 223, 236, 15, 136, 23, 31, 137, 173, 250, 51, 33, 101, 44, 159, 22, 85, 128, 229, 218, 172, 173, 57, 9, 244, 229, 116, 136, 30, 39, 244, 94, 236, 243, 207, 78, 166, 210, 220, 115, 151, 81, 110, 84, 159, 245, 59, 85, 253, 189, 226, 251, 116, 249, 148, 214, 58, 136, 234, 167, 105, 202, 235, 91, 123, 254, 229, 76, 51, 92, 150, 197, 27, 181, 205, 200, 83, 148, 123, 184, 116, 202, 25, 132, 77, 2, 208, 49, 252, 208, 235, 101, 95, 126, 49, 152, 141, 218, 49, 223, 225, 52, 5, 34, 146, 192, 106, 93, 140, 210, 19, 236, 247, 231, 43, 153, 0, 161, 79, 22, 133, 127, 183, 11, 105, 96, 233, 181, 174, 145, 113, 160, 36, 222, 208, 203, 117, 199, 116, 201, 91, 67, 115, 34, 130, 254, 206, 18, 179, 78, 182, 234, 245, 86, 196, 164, 156, 240, 65, 85, 211, 192, 193, 92, 119, 26, 45, 140, 146, 125, 92, 36, 246, 0, 0, 74, 251, 214, 18, 126, 134, 1, 140, 196, 102, 101, 35, 57, 245, 157, 132, 211, 109, 250, 12, 205, 122, 254, 86, 122, 192, 40, 114, 33, 77, 171, 121, 93, 26, 110, 115, 254, 13, 3, 106, 106, 235, 138, 200, 152, 156, 207, 66, 97, 96, 43, 65, 191, 11, 201, 247, 213, 43, 207, 209, 102, 50, 138, 175, 66, 138, 31, 29, 84, 199, 163, 252, 185, 120, 55, 86, 17, 211, 63, 205, 105, 47, 1, 50, 120, 155, 152, 201, 252, 53, 62, 140, 158, 199, 213, 12, 55, 47, 96, 250, 11, 108, 154, 117]),
        ),
        (
            RtpMeta { received: now(), time: MediaTime::new(1707639491, Frequency::new(90000).unwrap()), seq_no: SeqNo::from(27323), header: RtpHeader { version: 2, has_padding: false, has_extension: true, marker: false, payload_type: Pt::new_with_value(98), sequence_number: 27323, timestamp: 1707639491, ssrc: Ssrc::from(1781912139), ext_vals: {let mut ext = ExtensionValues::default();
                ext.transport_cc = Some(2557); ext}, header_len: 24 }, last_sender_info: None },
            Vec::from([161, 188, 101, 19, 128, 51, 188, 168, 179, 187, 174, 39, 9, 66, 186, 29, 126, 141, 136, 49, 67, 19, 67, 180, 248, 107, 251, 99, 130, 64, 185, 136, 111, 47, 81, 63, 108, 224, 127, 92, 4, 232, 145, 114, 182, 155, 211, 14, 84, 142, 71, 15, 135, 135, 63, 178, 6, 203, 147, 8, 87, 56, 75, 47, 149, 62, 217, 179, 250, 216, 11, 178, 26, 179, 236, 55, 20, 195, 1, 96, 36, 230, 18, 135, 203, 207, 44, 41, 141, 253, 87, 177, 228, 210, 18, 5, 202, 159, 185, 11, 133, 148, 20, 5, 245, 218, 2, 221, 77, 253, 77, 14, 124, 129, 221, 252, 145, 28, 32, 161, 167, 91, 207, 160, 178, 136, 206, 39, 170, 74, 81, 155, 195, 190, 140, 75, 157, 20, 3, 136, 249, 129, 192, 134, 56, 127, 147, 163, 221, 170, 192, 187, 226, 244, 195, 12, 95, 78, 162, 134, 198, 101, 13, 50, 142, 76, 176, 92, 82, 44, 87, 213, 144, 175, 25, 197, 115, 70, 119, 185, 23, 65, 230, 176, 59, 74, 51, 161, 133, 116, 218, 111, 209, 30, 18, 159, 130, 14, 6, 123, 121, 253, 203, 46, 94, 253, 153, 94, 75, 5, 240, 49, 230, 113, 106, 19, 109, 172, 171, 27, 171, 33, 200, 234, 26, 5, 249, 77, 177, 213, 114, 167, 32, 24, 76, 249, 199, 7, 14, 208, 104, 103, 171, 54, 173, 105, 237, 50, 27, 114, 25, 80, 199, 93, 46, 23, 73, 151, 127, 96, 139, 6, 125, 22, 116, 254, 66, 54, 208, 251, 102, 25, 237, 118, 108, 102, 22, 100, 146, 193, 204, 68, 3, 49, 230, 245, 22, 205, 9, 98, 146, 57, 113, 172, 208, 13, 237, 228, 56, 182, 133, 232, 158, 218, 183, 127, 235, 3, 244, 0, 223, 154, 43, 27, 180, 132, 159, 72, 166, 187, 218, 255, 19, 220, 243, 81, 104, 52, 144, 155, 158, 186, 125, 1, 44, 195, 28, 17, 142, 109, 201, 137, 81, 184, 71, 16, 164, 251, 132, 254, 198, 80, 58, 122, 21, 143, 114, 90, 106, 67, 255, 249, 60, 169, 44, 103, 51, 65, 67, 78, 123, 155, 68, 54, 242, 36, 165, 159, 235, 124, 199, 149, 238, 135, 239, 45, 134, 155, 202, 4, 106, 252, 49, 81, 53, 106, 4, 23, 83, 183, 125, 113, 88, 210, 227, 223, 148, 99, 153, 105, 34, 210, 161, 149, 75, 152, 111, 89, 64, 49, 204, 167, 147, 225, 138, 24, 49, 202, 179, 206, 61, 113, 104, 166, 53, 58, 119, 236, 59, 244, 106, 52, 225, 142, 48, 246, 175, 189, 190, 231, 17, 75, 162, 220, 215, 239, 247, 70, 132, 138, 24, 43, 214, 57, 245, 164, 1, 72, 207, 230, 198, 172, 191, 61, 67, 104, 230, 51, 233, 140, 145, 177, 248, 4, 158, 202, 165, 149, 118, 202, 21, 225, 160, 211, 123, 245, 101, 47, 99, 204, 80, 111, 6, 41, 249, 201, 202, 82, 168, 209, 81, 157, 154, 9, 250, 125, 144, 12, 195, 31, 245, 137, 29, 107, 221, 177, 174, 170, 207, 141, 190, 47, 163, 141, 36, 154, 15, 56, 23, 164, 214, 135, 78, 53, 187, 133, 58, 95, 28, 230, 61, 133, 37, 29, 14, 159, 188, 28, 209, 41, 180, 175, 154, 245, 243, 241, 20, 182, 203, 12, 223, 72, 156, 134, 3, 36, 37, 101, 65, 244, 96, 93, 78, 251, 168, 236, 177, 7, 229, 72, 117, 29, 166, 66, 173, 216, 27, 112, 96, 47, 51, 4, 143, 232, 154, 20, 243, 121, 133, 177, 59, 156, 217, 207, 45, 25, 88, 238, 201, 55, 100, 220, 183, 102, 225, 53, 146, 140, 177, 203, 195, 30, 247, 184, 251, 70, 64, 183, 77, 110, 187, 45, 64, 90, 19, 131, 140, 16, 233, 127, 48, 23, 6, 36, 133, 224, 53, 253, 65, 234, 76, 228, 217, 180, 105, 195, 229, 73, 142, 105, 48, 146, 173, 151, 198, 125, 236, 19, 220, 100, 181, 143, 176, 34, 240, 22, 202, 92, 152, 197, 65, 5, 110, 146, 124, 201, 122, 96, 199, 220, 135, 248, 183, 217, 19, 159, 190, 92, 228, 230, 196, 178, 53, 169, 39, 44, 68, 181, 223, 98, 81, 70, 213, 232, 147, 215, 36, 153, 199, 90, 128, 115, 206, 101, 153, 222, 170, 64, 25, 236, 43, 68, 106, 231, 37, 218, 45, 121, 11, 180, 210, 38, 217, 51, 29, 95, 40, 7, 124, 61, 249, 15, 107, 138, 91, 125, 183, 5, 234, 73, 28, 137, 206, 168, 130, 200, 92, 204, 127, 65, 140, 219, 92, 188, 10, 196, 89, 216, 150, 98, 71, 11, 245, 204, 222, 25, 113, 66, 232, 177, 24, 88, 82, 8, 171, 172, 22, 104, 250, 245, 255, 78, 0, 23, 44, 79, 154, 172, 216, 153, 47, 94, 50, 186, 192, 191, 75, 69, 35, 206, 227, 218, 235, 156, 243, 57, 194, 34, 147, 90, 137, 162, 101, 3, 31, 192, 52, 90, 66, 131, 184, 172, 7, 59, 124, 143, 215, 37, 43, 45, 61, 170, 122, 221, 235, 160, 153, 240, 88, 236, 137, 94, 240, 249, 233, 75, 245, 70, 42, 224, 121, 28, 48, 60, 133, 65, 174, 83, 83, 252, 75, 69, 75, 244, 125, 174, 122, 95, 164, 48, 243, 148, 226, 26, 175, 145, 194, 141, 55, 171, 146, 56, 2, 45, 183, 222, 71, 211, 60, 1, 238, 230, 239, 143, 59, 63, 71, 156, 99, 10, 1, 117, 230, 50, 111, 23, 233, 96, 249, 214, 142, 36, 114, 216, 102, 71, 35, 67, 205, 180, 241, 109, 192, 87, 133, 217, 215, 34, 159, 181, 178, 3, 253, 130, 172, 183, 141, 235, 175, 77, 203, 173, 182, 247, 124, 82, 92, 221, 227, 64, 76, 116, 152, 166, 136, 250, 44, 252, 159, 73, 119, 149, 214, 49, 159, 223, 197, 85, 102, 131, 184, 222, 253, 69, 77, 143, 60, 197, 170, 159, 15, 28, 210, 165, 129, 230, 242, 0, 148, 129, 205, 196, 135, 222, 101, 178, 84, 228, 71, 57, 255, 150, 111, 193, 232, 73, 225, 187, 138, 173, 43, 184, 22, 97, 148, 133, 215, 228, 230, 8, 226, 113, 191, 175, 232, 244, 152, 120, 233, 46, 71, 80, 222, 187, 179, 124, 55]),
        ),
        (
            RtpMeta { received: now(), time: MediaTime::new(1707639491, Frequency::new(90000).unwrap()), seq_no: SeqNo::from(27324), header: RtpHeader { version: 2, has_padding: false, has_extension: true, marker: false, payload_type: Pt::new_with_value(98), sequence_number: 27324, timestamp: 1707639491, ssrc: Ssrc::from(1781912139), ext_vals: {let mut ext = ExtensionValues::default();
                ext.transport_cc = Some(2558); ext}, header_len: 24 }, last_sender_info: None },
            Vec::from([165, 188, 101, 19, 128, 103, 239, 65, 155, 210, 41, 93, 44, 232, 153, 185, 161, 127, 71, 134, 127, 147, 180, 124, 251, 235, 159, 66, 143, 48, 183, 239, 216, 230, 74, 205, 148, 213, 167, 45, 149, 117, 203, 198, 16, 229, 2, 1, 111, 133, 156, 146, 222, 228, 139, 26, 27, 63, 188, 20, 54, 235, 194, 3, 171, 86, 86, 244, 162, 80, 214, 16, 38, 204, 159, 103, 99, 132, 229, 245, 42, 247, 127, 207, 81, 229, 215, 244, 10, 154, 237, 41, 150, 145, 154, 212, 64, 12, 203, 249, 2, 121, 36, 163, 195, 134, 226, 198, 21, 224, 204, 15, 250, 29, 66, 120, 92, 83, 148, 32, 208, 79, 44, 84, 100, 131, 148, 120, 196, 49, 107, 75, 100, 221, 41, 46, 23, 19, 9, 12, 136, 109, 250, 183, 73, 239, 249, 133, 227, 67, 156, 90, 243, 100, 88, 62, 0, 137, 168, 17, 28, 187, 195, 79, 240, 19, 72, 64, 133, 197, 60, 97, 13, 170, 144, 208, 195, 191, 52, 190, 251, 51, 112, 147, 125, 124, 190, 88, 104, 33, 200, 174, 3, 34, 157, 131, 244, 203, 195, 154, 31, 220, 217, 151, 17, 60, 155, 56, 79, 6, 217, 182, 79, 1, 99, 252, 218, 61, 138, 139, 186, 110, 60, 253, 91, 97, 10, 219, 38, 196, 80, 36, 82, 23, 33, 80, 109, 7, 119, 114, 13, 109, 237, 230, 207, 247, 51, 3, 51, 28, 52, 221, 93, 24, 41, 209, 177, 195, 147, 134, 142, 32, 30, 134, 16, 188, 232, 139, 230, 234, 227, 17, 201, 253, 7, 9, 187, 239, 90, 216, 38, 96, 133, 13, 142, 137, 57, 161, 97, 34, 180, 52, 111, 84, 48, 122, 164, 56, 158, 80, 224, 92, 165, 233, 9, 133, 53, 110, 29, 125, 108, 14, 10, 248, 202, 74, 85, 197, 73, 87, 117, 7, 217, 5, 140, 144, 229, 54, 238, 197, 4, 242, 37, 162, 23, 121, 244, 112, 154, 244, 169, 232, 14, 249, 248, 71, 85, 29, 116, 15, 165, 173, 138, 173, 122, 146, 246, 121, 237, 251, 108, 6, 136, 128, 121, 56, 106, 169, 224, 144, 61, 0, 241, 163, 118, 69, 68, 189, 205, 15, 127, 150, 117, 80, 220, 116, 141, 215, 43, 77, 67, 73, 115, 189, 195, 126, 226, 206, 172, 122, 16, 212, 182, 30, 88, 203, 199, 174, 194, 117, 149, 255, 155, 8, 109, 164, 84, 223, 217, 173, 103, 158, 141, 87, 218, 117, 231, 226, 46, 95, 29, 185, 9, 197, 34, 238, 175, 33, 179, 152, 154, 145, 15, 68, 241, 180, 251, 229, 99, 207, 112, 98, 160, 60, 210, 145, 59, 133, 99, 66, 246, 90, 242, 103, 221, 84, 104, 140, 190, 115, 147, 161, 24, 203, 227, 66, 182, 240, 108, 71, 230, 78, 241, 55, 177, 6, 43, 231, 241, 24, 160, 197, 0, 42, 53, 128, 252, 168, 5, 47, 151, 200, 119, 203, 11, 216, 131, 248, 176, 124, 56, 188, 246, 27, 227, 125, 104, 183, 175, 138, 154, 49, 164, 254, 75, 181, 232, 217, 0, 228, 60, 130, 185, 154, 229, 130, 125, 212, 32, 145, 220, 154, 19, 152, 162, 170, 184, 242, 89, 114, 52, 50, 72, 165, 24, 6, 87, 153, 229, 246, 228, 173, 60, 43, 28, 48, 0, 110, 188, 251, 203, 110, 96, 249, 29, 200, 65, 96, 243, 248, 130, 170, 61, 26, 202, 34, 247, 205, 218, 7, 208, 137, 195, 251, 127, 43, 222, 7, 141, 152, 232, 157, 192, 116, 69, 186, 253, 229, 5, 47, 50, 189, 246, 203, 195, 81, 171, 47, 98, 197, 146, 99, 23, 46, 209, 242, 188, 138, 180, 176, 205, 117, 162, 28, 218, 70, 70, 80, 211, 242, 107, 10, 82, 118, 19, 41, 225, 183, 162, 234, 210, 243, 182, 17, 48, 194, 199, 1, 16, 190, 156, 34, 181, 34, 79, 180, 159, 39, 216, 153, 225, 165, 202, 70, 227, 125, 181, 99, 155, 96, 16, 58, 159, 80, 53, 132, 73, 123, 228, 194, 117, 122, 226, 85, 225, 230, 196, 150, 97, 97, 246, 249, 31, 57, 189, 20, 213, 247, 128, 233, 66, 209, 172, 31, 108, 112, 166, 48, 68, 215, 81, 144, 48, 234, 50, 13, 47, 194, 77, 229, 236, 125, 31, 108, 151, 131, 191, 150, 48, 31, 20, 164, 217, 65, 54, 143, 72, 148, 135, 65, 111, 27, 64, 65, 110, 205, 109, 88, 157, 102, 159, 150, 40, 238, 226, 60, 123, 37, 111, 221, 114, 44, 219, 65, 171, 108, 96, 211, 60, 24, 203, 49, 71, 71, 52, 137, 227, 94, 230, 196, 105, 218, 0, 145, 0, 101, 246, 43, 245, 253, 6, 191, 133, 172, 155, 139, 86, 112, 8, 241, 21, 64, 251, 214, 117, 10, 71, 6, 215, 166, 141, 92, 176, 13, 97, 23, 224, 167, 49, 12, 105, 161, 42, 133, 63, 140, 3, 38, 184, 183, 82, 48, 65, 56, 239, 51, 204, 76, 157, 169, 42, 11, 201, 233, 228, 29, 220, 14, 10, 189, 103, 168, 160, 255, 4, 76, 94, 45, 86, 137, 49, 109, 1, 85, 226, 122, 161, 203, 193, 160, 196, 86, 162, 140, 12, 123, 250, 65, 111, 99, 179, 223, 99, 185, 93, 223, 72, 186, 129, 102, 199, 158, 120, 36, 156, 98, 92, 224, 171, 79, 42, 184, 40, 141, 112, 157, 172, 175, 30, 140, 72, 37, 101, 4, 231, 188, 107, 149, 18, 144, 143, 156, 112, 58, 97, 184, 20, 165, 79, 47, 129, 44, 7, 11, 186, 240, 245, 250, 102, 128, 46, 100, 17, 65, 97, 217, 16, 91, 136, 151, 154, 23, 67, 9, 52, 98, 121, 162, 244, 99, 31, 98, 143, 81, 35, 91, 7, 124, 148, 101, 224, 33, 137, 74, 91, 97, 235, 231, 4, 77, 9, 183, 110, 114, 54, 112, 122, 223, 150, 244, 190, 194, 78, 175, 1, 131, 136, 113, 65, 189, 238, 152, 220, 76, 53, 195, 61, 179, 27, 72, 33, 220, 113, 241, 73, 41, 98, 163, 144, 188, 177, 253, 154, 226, 238, 102, 121, 48, 115, 175, 100, 193, 213, 161, 31, 176, 234, 167, 182, 33, 83, 68, 88, 134, 175, 7, 133, 81, 138, 50, 23, 145, 135, 64, 200, 81, 0]),
        ),
    ];

    let mut buffer: DepacketizingBuffer<Vp9Depacketizer, SeqContiguity> =
        DepacketizingBuffer::new(Vp9Depacketizer::default(), 30);

    let sizes: Vec<usize> = input.iter().map(|(_, data)| data.len()).collect();

    for (meta, data) in input {
        buffer.push(meta, data);
    }

    let first = buffer.pop().unwrap().unwrap();
    assert_eq!(first.seq_range(), SeqNo::from(27315)..=SeqNo::from(27318));
    assert!(first.contiguous);
    assert_eq!(first.codec_extra, CodecExtra::Vp9(Vp9CodecExtra { pid: Some(15461) }));
    assert_eq!(first.ext_vals().transport_cc, Some(2552));
    // The first descriptor has a scalability structure.
    let payload: usize = sizes[..4].iter().sum();
    assert_eq!(first.data.len(), payload - 23 - 3 * 5);

    let second = buffer.pop().unwrap().unwrap();
    assert_eq!(second.seq_range(), SeqNo::from(27319)..=SeqNo::from(27324));
    assert!(second.contiguous);
    let payload: usize = sizes[4..].iter().sum();
    assert_eq!(second.data.len(), payload - 6 * 5);

    assert!(buffer.pop().is_none());
}
